use std::collections::HashMap;
use vstd::prelude::*;

verus! {

broadcast use vstd::std_specs::hash::group_hash_axioms;

/// How many times a failed connection is retried before giving up.
pub const CONNECT_RETRIES: u32 = 2;

/// The 48-bit number that a six-byte Bluetooth address spells, first byte highest.
pub open spec fn address_value(a: [u8; 6]) -> int {
    a[0] as int * 0x10000000000 + a[1] as int * 0x100000000 + a[2] as int * 0x1000000
        + a[3] as int * 0x10000 + a[4] as int * 0x100 + a[5] as int
}

/// The key under which a device with address `a` is registered.
pub fn address_key(a: [u8; 6]) -> (key: u64)
    ensures
        key == address_value(a),
{
    let key: u64 = a[0] as u64 * 0x10000000000 + a[1] as u64 * 0x100000000 + a[2] as u64
        * 0x1000000 + a[3] as u64 * 0x10000 + a[4] as u64 * 0x100 + a[5] as u64;
    key
}

/// Different addresses get different keys, so the registry holds at most one
/// device per address.
pub proof fn lemma_address_key_injective(a: [u8; 6], b: [u8; 6])
    requires
        address_value(a) == address_value(b),
    ensures
        a == b,
{
    assert forall|i: int| 0 <= i < 6 implies a[i] == b[i] by {
        let (a0, a1, a2, a3, a4, a5) = (a[0] as int, a[1] as int, a[2] as int, a[3] as int, a[4] as int, a[5] as int);
        let (b0, b1, b2, b3, b4, b5) = (b[0] as int, b[1] as int, b[2] as int, b[3] as int, b[4] as int, b[5] as int);
        assert(a0 == b0 && a1 == b1 && a2 == b2 && a3 == b3 && a4 == b4 && a5 == b5) by (nonlinear_arith)
            requires
                0 <= a0 < 256, 0 <= a1 < 256, 0 <= a2 < 256, 0 <= a3 < 256, 0 <= a4 < 256, 0 <= a5 < 256,
                0 <= b0 < 256, 0 <= b1 < 256, 0 <= b2 < 256, 0 <= b3 < 256, 0 <= b4 < 256, 0 <= b5 < 256,
                a0 * 0x10000000000 + a1 * 0x100000000 + a2 * 0x1000000 + a3 * 0x10000 + a4 * 0x100 + a5
                    == b0 * 0x10000000000 + b1 * 0x100000000 + b2 * 0x1000000 + b3 * 0x10000 + b4 * 0x100 + b5;
    }
    assert(a@ =~= b@);
}

/// A device the program will drive: the service and characteristic to look
/// for on it, and what to run once that characteristic is found.
pub struct BleDevice<R> {
    pub service: u128,
    pub characteristic: u128,
    pub run: R,
}

/// The devices the program accepts, by address, and where their runs report to.
pub struct Bluetooth<R, S> {
    accepted: HashMap<u64, BleDevice<R>>,
    sender: S,
}

impl<R, S> Bluetooth<R, S> {
    /// The accepted devices by address key.
    pub closed spec fn devices(&self) -> Map<u64, BleDevice<R>> {
        self.accepted@
    }

    /// Where the runs report to.
    pub closed spec fn spec_sender(&self) -> S {
        self.sender
    }

    /// A registry that accepts no device yet.
    pub fn new(sender: S) -> (bl: Self)
        ensures
            bl.devices() == Map::<u64, BleDevice<R>>::empty(),
            bl.spec_sender() == sender,
    {
        Bluetooth { accepted: HashMap::new(), sender }
    }

    /// Accepts the device at `address`, replacing one registered there before.
    pub fn add_device(&mut self, service: u128, characteristic: u128, address: [u8; 6], run: R)
        ensures
            final(self).devices() == old(self).devices().insert(
                address_value(address) as u64,
                BleDevice { service, characteristic, run },
            ),
            final(self).spec_sender() == old(self).spec_sender(),
    {
        let device = BleDevice { characteristic, service, run };
        let key = address_key(address);
        self.accepted.insert(key, device);
    }

    /// The device accepted at `address`, if any.
    pub fn accepted_device(&self, address: [u8; 6]) -> (device: Option<&BleDevice<R>>)
        ensures
            match device {
                Some(d) => self.devices().contains_key(address_value(address) as u64) && *d
                    == self.devices()[address_value(address) as u64],
                None => !self.devices().contains_key(address_value(address) as u64),
            },
    {
        let key = address_key(address);
        self.accepted.get(&key)
    }

    /// Where the runs report to.
    pub fn sender(&self) -> (s: &S)
        ensures
            *s == self.spec_sender(),
    {
        &self.sender
    }
}

/// What to do after one connection attempt.
pub enum ConnectStep {
    Connected,
    Retry { retries_left: u32 },
    GiveUp,
}

/// The step after an attempt that `connected` or not, with `retries_left`
/// retries still allowed.
pub open spec fn connect_step_spec(retries_left: u32, connected: bool) -> ConnectStep {
    if connected {
        ConnectStep::Connected
    } else if retries_left > 0 {
        ConnectStep::Retry { retries_left: (retries_left - 1) as u32 }
    } else {
        ConnectStep::GiveUp
    }
}

/// Decides what follows a connection attempt: done on success, another try
/// while retries are left, else give up.
pub fn next_connect_step(retries_left: u32, connected: bool) -> (step: ConnectStep)
    ensures
        step == connect_step_spec(retries_left, connected),
        connected ==> step is Connected,
        !connected && retries_left > 0 ==> step == (ConnectStep::Retry {
            retries_left: (retries_left - 1) as u32,
        }),
        !connected && retries_left == 0 ==> step is GiveUp,
{
    if connected {
        ConnectStep::Connected
    } else if retries_left > 0 {
        ConnectStep::Retry { retries_left: retries_left - 1 }
    } else {
        ConnectStep::GiveUp
    }
}

/// What follows one attempt: a success always connects, whatever retries
/// are left; a failure retries with one retry fewer while any are left, and
/// gives up once none is left.
pub proof fn lemma_connect_step_follows_outcome(retries_left: u32, connected: bool)
    ensures
        connected ==> connect_step_spec(retries_left, connected) is Connected,
        !connected && retries_left > 0 ==> connect_step_spec(retries_left, connected) == (
        ConnectStep::Retry { retries_left: (retries_left - 1) as u32 }),
        !connected && retries_left == 0 ==> connect_step_spec(retries_left, connected) is GiveUp,
{
}

/// Number of attempts made, starting with `retries_left` retries, when the
/// attempts turn out as `outcomes` says.
pub open spec fn attempts_made(retries_left: u32, outcomes: Seq<bool>) -> nat
    decreases outcomes.len(),
{
    if outcomes.len() == 0 {
        0
    } else {
        match connect_step_spec(retries_left, outcomes[0]) {
            ConnectStep::Retry { retries_left: r } => 1 + attempts_made(r, outcomes.drop_first()),
            _ => 1,
        }
    }
}

/// Whatever the attempts give, a device is tried at most one time more than
/// the retries allowed.
pub proof fn lemma_attempts_bounded(retries_left: u32, outcomes: Seq<bool>)
    ensures
        attempts_made(retries_left, outcomes) <= retries_left + 1,
    decreases outcomes.len(),
{
    if outcomes.len() > 0 {
        if let ConnectStep::Retry { retries_left: r } = connect_step_spec(retries_left, outcomes[0]) {
            lemma_attempts_bounded(r, outcomes.drop_first());
        }
    }
}

/// Whether `chars` has `characteristic`.
pub open spec fn has_characteristic(chars: Seq<u128>, characteristic: u128) -> bool {
    chars.contains(characteristic)
}

/// A list has a characteristic exactly when it holds it at some position,
/// the last one included.
pub proof fn lemma_has_characteristic_at_any_position(chars: Seq<u128>, characteristic: u128)
    ensures
        has_characteristic(chars, characteristic) <==> exists|i: int|
            0 <= i < chars.len() && chars[i] == characteristic,
{
    if exists|i: int| 0 <= i < chars.len() && chars[i] == characteristic {
        let i = choose|i: int| 0 <= i < chars.len() && chars[i] == characteristic;
        assert(chars.contains(chars[i]));
    }
}

/// Finds, among the services of a device (each its UUID and the UUIDs of its
/// characteristics), the first service with UUID `service` that has a
/// characteristic `characteristic`, and the first such characteristic in it.
pub fn find_characteristic(services: &Vec<(u128, Vec<u128>)>, service: u128, characteristic: u128) -> (found:
    Option<(usize, usize)>)
    ensures
        match found {
            Some((s, c)) => {
                &&& s < services@.len()
                &&& services@[s as int].0 == service
                &&& c < services@[s as int].1@.len()
                &&& services@[s as int].1@[c as int] == characteristic
                &&& forall|c2: int| 0 <= c2 < c ==> services@[s as int].1@[c2] != characteristic
                &&& forall|s2: int|
                    0 <= s2 < s ==> services@[s2].0 != service || !has_characteristic(
                        services@[s2].1@,
                        characteristic,
                    )
            },
            None => forall|s2: int|
                0 <= s2 < services@.len() ==> services@[s2].0 != service || !has_characteristic(
                    services@[s2].1@,
                    characteristic,
                ),
        },
        found is None <==> forall|s2: int, c2: int|
            0 <= s2 < services@.len() && 0 <= c2 < services@[s2].1@.len()
                ==> services@[s2].0 != service || services@[s2].1@[c2] != characteristic,
{
    let mut s: usize = 0;
    while s < services.len()
        invariant
            s <= services@.len(),
            forall|s2: int|
                0 <= s2 < s ==> services@[s2].0 != service || !has_characteristic(
                    services@[s2].1@,
                    characteristic,
                ),
        decreases services@.len() - s,
    {
        if services[s].0 == service {
            let chars = &services[s].1;
            let mut c: usize = 0;
            while c < chars.len()
                invariant
                    s < services@.len(),
                    services@[s as int].0 == service,
                    forall|s2: int|
                        0 <= s2 < s ==> services@[s2].0 != service || !has_characteristic(
                            services@[s2].1@,
                            characteristic,
                        ),
                    c <= chars@.len(),
                    chars == services@[s as int].1,
                    forall|c2: int| 0 <= c2 < c ==> chars@[c2] != characteristic,
                decreases chars@.len() - c,
            {
                if chars[c] == characteristic {
                    return Some((s, c));
                }
                c = c + 1;
            }
        }
        s = s + 1;
    }
    None
}

/// Whether `uuids` holds `uuid`.
fn contains_uuid(uuids: &Vec<u128>, uuid: u128) -> (found: bool)
    ensures
        found == uuids@.contains(uuid),
{
    let mut i: usize = 0;
    while i < uuids.len()
        invariant
            i <= uuids@.len(),
            forall|j: int| 0 <= j < i ==> uuids@[j] != uuid,
        decreases uuids@.len() - i,
    {
        if uuids[i] == uuid {
            assert(uuids@[i as int] == uuid);
            return true;
        }
        i = i + 1;
    }
    false
}

/// After connecting to a discovered device: the index, among all its
/// characteristics, of the first one with UUID `characteristic`, provided
/// one of its services has UUID `service`; otherwise nothing, and the device
/// is let go.
pub fn select_characteristic(services: &Vec<u128>, characteristics: &Vec<u128>, service: u128, characteristic: u128) -> (found: Option<usize>)
    ensures
        match found {
            Some(i) => {
                &&& services@.contains(service)
                &&& i < characteristics@.len()
                &&& characteristics@[i as int] == characteristic
                &&& forall|j: int| 0 <= j < i ==> characteristics@[j] != characteristic
            },
            None => !services@.contains(service) || !characteristics@.contains(characteristic),
        },
{
    if !contains_uuid(services, service) {
        return None;
    }
    let mut i: usize = 0;
    while i < characteristics.len()
        invariant
            i <= characteristics@.len(),
            services@.contains(service),
            forall|j: int| 0 <= j < i ==> characteristics@[j] != characteristic,
        decreases characteristics@.len() - i,
    {
        if characteristics[i] == characteristic {
            return Some(i);
        }
        i = i + 1;
    }
    None
}

/// A car that the console drives: where it is, the service and
/// characteristic that take the motor byte, and whether the car reports back
/// through notifications.
pub struct CarProfile {
    pub address: [u8; 6],
    pub service: u128,
    pub characteristic: u128,
    pub notify: bool,
}

/// The car with the HC-08 module, which reports back, or the other car,
/// which takes the motor byte on a different characteristic and does not.
pub fn console_car(use_hc08: bool) -> (car: CarProfile)
    ensures
        use_hc08 ==> car == (CarProfile {
            address: [0xA8, 0x10, 0x87, 0x67, 0x73, 0x2A],
            service: 0x0000ffe000001000800000805f9b34fb,
            characteristic: 0x0000ffe100001000800000805f9b34fb,
            notify: true,
        }),
        !use_hc08 ==> car == (CarProfile {
            address: [0x48, 0x87, 0x2D, 0x11, 0xA6, 0xF1],
            service: 0x0000ffe000001000800000805f9b34fb,
            characteristic: 0x0000ffe200001000800000805f9b34fb,
            notify: false,
        }),
{
    if use_hc08 {
        CarProfile {
            address: [0xA8, 0x10, 0x87, 0x67, 0x73, 0x2A],
            service: 0x0000ffe000001000800000805f9b34fb,
            characteristic: 0x0000ffe100001000800000805f9b34fb,
            notify: true,
        }
    } else {
        CarProfile {
            address: [0x48, 0x87, 0x2D, 0x11, 0xA6, 0xF1],
            service: 0x0000ffe000001000800000805f9b34fb,
            characteristic: 0x0000ffe200001000800000805f9b34fb,
            notify: false,
        }
    }
}

} // verus!
