use vstd::prelude::*;

verus! {

/// The low four bits of a signed motor level, as the car reads them.
pub open spec fn nibble(level: i8) -> int {
    (level as int) % 16
}

/// Packs two signed motor levels into the single byte that the car reads:
/// `high` goes to the upper nibble and `low` to the lower one, each as its
/// two's complement low four bits.
pub fn pack_motor_levels(high: i8, low: i8) -> (byte: u8)
    ensures
        byte as int == nibble(high) * 16 + nibble(low),
{
    let h: u8 = (#[verifier::truncate] (high as u8)) & 0x0f;
    let l: u8 = (#[verifier::truncate] (low as u8)) & 0x0f;
    assert(h < 16) by (bit_vector)
        requires h == (#[verifier::truncate] (high as u8)) & 0x0f;
    let byte: u8 = h * 16 | l;
    assert(byte as int == (high as int) % 16 * 16 + (low as int) % 16) by (bit_vector)
        requires
            h == (#[verifier::truncate] (high as u8)) & 0x0f,
            l == (#[verifier::truncate] (low as u8)) & 0x0f,
            byte == ((h * 16) as u8) | l,
    ;
    byte
}

/// The signed level that a four-bit nibble stands for.
pub open spec fn signed_nibble(n: int) -> int {
    if n >= 8 {
        n - 16
    } else {
        n
    }
}

/// The byte keeps both levels: for levels between -8 and 7, the upper nibble
/// read as a signed number is `high` and the lower one is `low`, so two
/// different pairs of levels never give the same byte.
pub proof fn lemma_motor_byte_keeps_levels(high: i8, low: i8)
    requires
        -8 <= high <= 7,
        -8 <= low <= 7,
    ensures
        signed_nibble((nibble(high) * 16 + nibble(low)) / 16) == high,
        signed_nibble((nibble(high) * 16 + nibble(low)) % 16) == low,
{
    let h = nibble(high);
    let l = nibble(low);
    assert(0 <= l < 16);
    assert((h * 16 + l) / 16 == h) by (nonlinear_arith)
        requires 0 <= l < 16;
    assert((h * 16 + l) % 16 == l) by (nonlinear_arith)
        requires 0 <= l < 16;
}

} // verus!
