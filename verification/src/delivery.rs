use vstd::prelude::*;

use crate::relay::{
    accept_datagram_spec, assembled, chunk_at, chunk_count, chunks_of, decodes_as_frame, feed,
    lemma_chunk_start, part_or_empty, ReaderModel, CHUNK_SIZE,
};

verus! {

/// The last chunk ends the message.
proof fn lemma_chunks_cover(len: nat)
    ensures
        chunk_count(len) * CHUNK_SIZE >= len,
        chunk_count(len) <= len,
        len > 0 ==> chunk_count(len) > 0,
{
    vstd::arithmetic::div_mod::lemma_fundamental_div_mod(len as int, CHUNK_SIZE as int);
}

/// The first `k` chunks put together are the first bytes of the message.
proof fn lemma_chunks_prefix(data: Seq<u8>, k: nat)
    requires
        k <= chunk_count(data.len()),
    ensures
        Seq::new(k, |i: int| chunk_at(data, i)).flatten() == data.subrange(
            0,
            if k * CHUNK_SIZE < data.len() {
                k * CHUNK_SIZE
            } else {
                data.len() as int
            },
        ),
    decreases k,
{
    let f = |i: int| chunk_at(data, i);
    if k == 0 {
        assert(Seq::new(0, f) =~= Seq::<Seq<u8>>::empty());
        assert(data.subrange(0, 0) =~= Seq::<u8>::empty());
    } else {
        let j = (k - 1) as nat;
        lemma_chunks_prefix(data, j);
        lemma_chunk_start(data.len(), j as int);
        assert(Seq::new(k, f) =~= Seq::new(j, f).push(f(j as int)));
        Seq::new(j, f).lemma_flatten_push(f(j as int));
        let start = j * CHUNK_SIZE;
        let end = if k * CHUNK_SIZE < data.len() {
            k * CHUNK_SIZE
        } else {
            data.len() as int
        };
        assert(data.subrange(0, start) + data.subrange(start, end) =~= data.subrange(0, end));
    }
}

/// Cutting a message into chunks loses nothing: each chunk holds between one
/// and `CHUNK_SIZE` bytes, and the chunks put together in order are the
/// message again.
pub proof fn lemma_chunks_rebuild(data: Seq<u8>)
    ensures
        chunks_of(data).flatten() == data,
        chunks_of(data).len() <= data.len(),
        data.len() > 0 ==> chunks_of(data).len() > 0,
        forall|i: int|
            0 <= i < chunks_of(data).len() ==> 0 < (#[trigger] chunks_of(data)[i]).len()
                <= CHUNK_SIZE,
{
    lemma_chunks_cover(data.len());
    lemma_chunks_prefix(data, chunk_count(data.len()));
    assert(data.subrange(0, data.len() as int) =~= data);
    assert forall|i: int| 0 <= i < chunks_of(data).len() implies 0 < (
    #[trigger] chunks_of(data)[i]).len() <= CHUNK_SIZE by {
        lemma_chunk_start(data.len(), i);
    }
}

/// The chunks of `parts` with indices below `k`, as a reader stores them.
pub open spec fn received_parts(parts: Seq<Seq<u8>>, k: nat) -> Map<usize, Seq<u8>>
    decreases k,
{
    if k == 0 {
        Map::empty()
    } else {
        received_parts(parts, (k - 1) as nat).insert((k - 1) as usize, parts[k - 1])
    }
}

proof fn lemma_received_parts(parts: Seq<Seq<u8>>, k: nat)
    requires
        k <= parts.len() <= usize::MAX,
    ensures
        received_parts(parts, k).dom().finite(),
        received_parts(parts, k).len() == k,
        forall|j: usize| #[trigger] received_parts(parts, k).contains_key(j) <==> j < k,
        forall|j: usize| j < k ==> #[trigger] received_parts(parts, k)[j] == parts[j as int],
    decreases k,
{
    if k > 0 {
        lemma_received_parts(parts, (k - 1) as nat);
        let prev = received_parts(parts, (k - 1) as nat);
        assert(!prev.contains_key((k - 1) as usize));
        assert(prev.insert((k - 1) as usize, parts[k - 1]).dom() =~= prev.dom().insert(
            (k - 1) as usize,
        ));
    }
}

/// The chunks of `parts` whose indices come first in `order`, `k` of them.
pub open spec fn parts_in_order(parts: Seq<Seq<u8>>, order: Seq<usize>, k: nat) -> Map<
    usize,
    Seq<u8>,
>
    decreases k,
{
    if k == 0 {
        Map::empty()
    } else {
        let j = order[k - 1];
        parts_in_order(parts, order, (k - 1) as nat).insert(j, parts[j as int])
    }
}

/// `order` lists each index below `n` once.
pub open spec fn is_order_of(order: Seq<usize>, n: nat) -> bool {
    &&& order.len() == n
    &&& order.no_duplicates()
    &&& forall|i: int| 0 <= i < n ==> #[trigger] order[i] < n
}

proof fn lemma_parts_in_order(parts: Seq<Seq<u8>>, order: Seq<usize>, k: nat)
    requires
        is_order_of(order, parts.len()),
        k <= parts.len(),
    ensures
        parts_in_order(parts, order, k).dom().finite(),
        parts_in_order(parts, order, k).len() == k,
        forall|j: usize|
            #[trigger] parts_in_order(parts, order, k).contains_key(j) <==> exists|i: int|
                0 <= i < k && order[i] == j,
        forall|j: usize|
            #[trigger] parts_in_order(parts, order, k).contains_key(j) ==> parts_in_order(
                parts,
                order,
                k,
            )[j] == parts[j as int],
    decreases k,
{
    if k > 0 {
        let k1 = (k - 1) as nat;
        lemma_parts_in_order(parts, order, k1);
        let prev = parts_in_order(parts, order, k1);
        let j = order[k1 as int];
        if prev.contains_key(j) {
            let i = choose|i: int| 0 <= i < k1 && order[i] == j;
            assert(order[i] == order[k1 as int]);
        }
        assert(prev.insert(j, parts[j as int]).dom() =~= prev.dom().insert(j));
        assert forall|x: usize| #[trigger]
            parts_in_order(parts, order, k).contains_key(x) <==> exists|i: int|
                0 <= i < k && order[i] == x by {
            if x == j {
                assert(order[k1 as int] == x);
            }
        }
    }
}

/// The reader after the first `k` datagrams of a frame taken in `order`, `k`
/// short of all of them.
proof fn lemma_feed_prefix(
    m: ReaderModel,
    id: usize,
    data: Seq<u8>,
    ds: Seq<Seq<u8>>,
    order: Seq<usize>,
    k: nat,
)
    requires
        !m.pending.contains_key(id),
        data.len() <= usize::MAX,
        decodes_as_frame(ds, id, data),
        is_order_of(order, ds.len()),
        k < ds.len(),
    ensures
        feed(m, reordered(ds, order).take(k as int)).0 == (ReaderModel {
            pending: if k == 0 {
                m.pending
            } else {
                m.pending.insert(id, parts_in_order(chunks_of(data), order, k))
            },
            latest_read: m.latest_read,
        }),
        feed(m, reordered(ds, order).take(k as int)).1 == Seq::new(
            k,
            |i: int| None::<(usize, Seq<u8>)>,
        ),
    decreases k,
{
    let parts = chunks_of(data);
    let fed = reordered(ds, order);
    lemma_chunks_rebuild(data);
    if k == 0 {
        assert(fed.take(0) =~= Seq::<Seq<u8>>::empty());
        assert(Seq::new(0, |i: int| None::<(usize, Seq<u8>)>) =~= Seq::empty());
    } else {
        let j = (k - 1) as nat;
        lemma_feed_prefix(m, id, data, ds, order, j);
        assert(fed.take(k as int).drop_last() =~= fed.take(j as int));
        let x = order[j as int];
        assert(fed.take(k as int).last() == ds[x as int]);
        let before = feed(m, fed.take(j as int));
        assert(chunk_from_wire_of(ds, x as int) == Some(
            (id as u64, parts.len() as u64, x as u64, parts[x as int]),
        ));
        lemma_parts_in_order(parts, order, j);
        lemma_parts_in_order(parts, order, k);
        let stored = if j == 0 {
            Map::<usize, Seq<u8>>::empty()
        } else {
            parts_in_order(parts, order, j)
        };
        assert(stored.insert(x, parts[x as int]) =~= parts_in_order(parts, order, k));
        assert(accept_datagram_spec(before.0, ds[x as int]).1 is None);
        assert(Seq::new(k, |i: int| None::<(usize, Seq<u8>)>) =~= Seq::new(
            j,
            |i: int| None::<(usize, Seq<u8>)>,
        ).push(None));
        if j > 0 {
            assert(before.0.pending.insert(id, parts_in_order(parts, order, k)) =~= m.pending.insert(
                id,
                parts_in_order(parts, order, k),
            ));
        }
    }
}

/// The decoded form of datagram `i` of `ds`.
spec fn chunk_from_wire_of(ds: Seq<Seq<u8>>, i: int) -> Option<(u64, u64, u64, Seq<u8>)> {
    crate::relay::chunk_from_wire(ds[i])
}

/// The datagrams `ds` taken in `order`.
pub open spec fn reordered(ds: Seq<Seq<u8>>, order: Seq<usize>) -> Seq<Seq<u8>> {
    Seq::new(order.len(), |i: int| ds[order[i] as int])
}

/// Delivery: a reader that holds nothing of message `id` and is fed the
/// datagrams that frame a non-empty message, in any order, delivers nothing
/// until the last one, delivers the whole message under its number with the
/// last one, and is left as it was before.
pub proof fn lemma_frame_delivers(
    m: ReaderModel,
    id: usize,
    data: Seq<u8>,
    ds: Seq<Seq<u8>>,
    order: Seq<usize>,
)
    requires
        !m.pending.contains_key(id),
        0 < data.len() <= usize::MAX,
        decodes_as_frame(ds, id, data),
        is_order_of(order, ds.len()),
    ensures
        ds.len() == chunk_count(data.len()),
        feed(m, reordered(ds, order)).0 == m,
        feed(m, reordered(ds, order)).1.len() == ds.len(),
        forall|i: int|
            0 <= i < ds.len() - 1 ==> (#[trigger] feed(m, reordered(ds, order)).1[i]) is None,
        feed(m, reordered(ds, order)).1.last() == Some((id, data)),
{
    let parts = chunks_of(data);
    let fed = reordered(ds, order);
    lemma_chunks_rebuild(data);
    let n = ds.len();
    let j = (n - 1) as nat;
    lemma_feed_prefix(m, id, data, ds, order, j);
    assert(fed.take(n as int) =~= fed);
    assert(fed.drop_last() =~= fed.take(j as int));
    let x = order[j as int];
    let before = feed(m, fed.take(j as int));
    assert(chunk_from_wire_of(ds, x as int) == Some(
        (id as u64, parts.len() as u64, x as u64, parts[x as int]),
    ));
    lemma_parts_in_order(parts, order, j);
    lemma_parts_in_order(parts, order, n);
    lemma_received_parts(parts, n);
    let stored = if j == 0 {
        Map::<usize, Seq<u8>>::empty()
    } else {
        parts_in_order(parts, order, j)
    };
    let whole = stored.insert(x, parts[x as int]);
    assert(whole =~= parts_in_order(parts, order, n));
    assert(whole.dom().subset_of(received_parts(parts, n).dom()));
    vstd::set_lib::lemma_subset_equality(whole.dom(), received_parts(parts, n).dom());
    assert forall|i: int| 0 <= i < n implies part_or_empty(whole, i) == parts[i] by {
        assert(received_parts(parts, n).contains_key(i as usize));
    }
    assert(Seq::new(n, |i: int| part_or_empty(whole, i)) =~= parts);
    assert(assembled(whole, n) == data);
    assert(before.0.pending.remove(id) =~= m.pending);
}

} // verus!
