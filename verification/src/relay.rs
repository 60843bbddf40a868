use std::collections::HashMap;
use vstd::prelude::*;
use vstd::std_specs::iter::IteratorSpec;

verus! {

broadcast use vstd::std_specs::hash::group_hash_axioms;

/// Largest number of message bytes that one datagram carries.
pub const CHUNK_SIZE: usize = 60000;

/// Size of the receive buffer: longer datagrams are cut to this length by the socket.
pub const MAX_DATAGRAM: usize = CHUNK_SIZE * 11 / 10;

/// Above this many partly received messages the reader drops the stale ones.
pub const MAX_PENDING: usize = 10;

/// Number of bytes that decoding one datagram may claim before it is refused.
pub const DECODE_LIMIT: usize = 1048576;

/// The bytes of one chunk packet as bincode's standard configuration writes
/// the fields `(packet_id, packet_count, chunk_index, data)`.
pub uninterp spec fn chunk_wire(packet_id: u64, packet_count: u64, chunk_index: u64, data: Seq<u8>) -> Seq<u8>;

/// What bincode's standard configuration, with a claim limit of
/// `DECODE_LIMIT` bytes, reads from the front of `bytes` as the fields
/// `(packet_id, packet_count, chunk_index, data)`, or `None` where it fails.
pub uninterp spec fn chunk_from_wire(bytes: Seq<u8>) -> Option<(u64, u64, u64, Seq<u8>)>;

/// Encodes one chunk packet with `bincode::encode_to_vec` and the standard
/// configuration. Trusted: the bytes are those that `chunk_wire` names, and,
/// as bincode documents, decoding them gives the fields back; a decoder
/// limited to `DECODE_LIMIT` claims 8 bytes for each integer and one for each
/// data byte, so the round trip is promised where those fit. Encoding into a
/// vector cannot fail for these field types (its writer never fails and no
/// limit applies), so the `unwrap` is never taken.
#[verifier::external_body]
fn encode_chunk(packet_id: u64, packet_count: u64, chunk_index: u64, data: Vec<u8>) -> (bytes: Vec<u8>)
    ensures
        bytes@ == chunk_wire(packet_id, packet_count, chunk_index, data@),
        data@.len() + 32 <= DECODE_LIMIT ==> chunk_from_wire(bytes@) == Some(
            (packet_id, packet_count, chunk_index, data@),
        ),
{
    bincode::encode_to_vec((packet_id, packet_count, chunk_index, data), bincode::config::standard()).unwrap()
}

/// Decodes one chunk packet with `bincode::decode_from_slice`, the standard
/// configuration and a claim limit of `DECODE_LIMIT` bytes (the limit makes
/// the decoder refuse a length prefix larger than what it may read before it
/// allocates). Trusted: the result is the one that `chunk_from_wire` names.
#[verifier::external_body]
fn decode_chunk(bytes: &[u8]) -> (chunk: Option<(u64, u64, u64, Vec<u8>)>)
    ensures
        chunk.deep_view() == chunk_from_wire(bytes@),
{
    match bincode::decode_from_slice::<(u64, u64, u64, Vec<u8>), _>(
        bytes,
        bincode::config::standard().with_limit::<DECODE_LIMIT>(),
    ) {
        Ok((chunk, _)) => Some(chunk),
        Err(_) => None,
    }
}

// ---------------------------------------------------------------------------
// Splitting a message into chunks
// ---------------------------------------------------------------------------

/// Number of chunks of at most `CHUNK_SIZE` bytes that a message of `len` bytes takes.
pub open spec fn chunk_count(len: nat) -> nat {
    if len % (CHUNK_SIZE as nat) == 0 {
        len / (CHUNK_SIZE as nat)
    } else {
        len / (CHUNK_SIZE as nat) + 1
    }
}

/// The `i`-th chunk of `data`: the bytes from `i * CHUNK_SIZE` up to the next
/// multiple of `CHUNK_SIZE` or to the end of `data`.
pub open spec fn chunk_at(data: Seq<u8>, i: int) -> Seq<u8> {
    let start = i * CHUNK_SIZE;
    let end = if data.len() - start < CHUNK_SIZE {
        data.len() as int
    } else {
        start + CHUNK_SIZE
    };
    data.subrange(start, end)
}

/// `data` cut into consecutive chunks of `CHUNK_SIZE` bytes, the last one shorter.
pub open spec fn chunks_of(data: Seq<u8>) -> Seq<Seq<u8>> {
    Seq::new(chunk_count(data.len()), |i: int| chunk_at(data, i))
}

/// The datagrams that carry `data` as the message numbered `id`: one packet per
/// chunk, each with the message number, the number of chunks and its index.
pub open spec fn frame_datagrams(id: usize, data: Seq<u8>) -> Seq<Seq<u8>> {
    let parts = chunks_of(data);
    Seq::new(parts.len(), |i: int| chunk_wire(id as u64, parts.len() as u64, i as u64, parts[i]))
}

/// `ds` are datagrams that a reader decodes as the chunks of `data`, in order,
/// all under message number `id`.
pub open spec fn decodes_as_frame(ds: Seq<Seq<u8>>, id: usize, data: Seq<u8>) -> bool {
    let parts = chunks_of(data);
    &&& ds.len() == parts.len()
    &&& forall|i: int|
        0 <= i < ds.len() ==> chunk_from_wire(#[trigger] ds[i]) == Some(
            (id as u64, parts.len() as u64, i as u64, parts[i]),
        )
}

/// The byte contents of a sequence of byte vectors.
pub open spec fn bytes_of(v: Seq<Vec<u8>>) -> Seq<Seq<u8>> {
    v.map_values(|b: Vec<u8>| b@)
}

/// A chunk starts inside the message.
pub proof fn lemma_chunk_start(len: nat, i: int)
    requires
        0 <= i < chunk_count(len),
    ensures
        i * CHUNK_SIZE < len,
{
    vstd::arithmetic::div_mod::lemma_fundamental_div_mod(len as int, CHUNK_SIZE as int);
}

// ---------------------------------------------------------------------------
// Reassembling messages
// ---------------------------------------------------------------------------

/// What a reader holds: the chunks received so far of each unfinished message,
/// by message number and chunk index, and the number of the last message delivered.
pub struct ReaderModel {
    pub pending: Map<usize, Map<usize, Seq<u8>>>,
    pub latest_read: usize,
}

/// The chunk with index `i`, or nothing where it was not received.
pub open spec fn part_or_empty(parts: Map<usize, Seq<u8>>, i: int) -> Seq<u8> {
    if 0 <= i <= usize::MAX && parts.contains_key(i as usize) {
        parts[i as usize]
    } else {
        Seq::empty()
    }
}

/// The message put together from `parts`: chunks `0 .. count` in order, a
/// missing one contributing nothing.
pub open spec fn assembled(parts: Map<usize, Seq<u8>>, count: nat) -> Seq<u8> {
    Seq::new(count, |i: int| part_or_empty(parts, i)).flatten()
}

/// One received chunk: it is stored under its message number and index (a
/// later copy of the same index replaces the earlier one). When the message
/// then holds as many chunks as the packet announces, it leaves the buffer and
/// comes out assembled.
pub open spec fn accept_chunk_spec(
    m: ReaderModel,
    id: usize,
    count: usize,
    index: usize,
    data: Seq<u8>,
) -> (ReaderModel, Option<(usize, Seq<u8>)>) {
    let parts = if m.pending.contains_key(id) {
        m.pending[id]
    } else {
        Map::empty()
    };
    let parts2 = parts.insert(index, data);
    if parts2.len() == count {
        (
            ReaderModel { pending: m.pending.remove(id), latest_read: m.latest_read },
            Some((id, assembled(parts2, count as nat))),
        )
    } else {
        (ReaderModel { pending: m.pending.insert(id, parts2), latest_read: m.latest_read }, None)
    }
}

/// Whether a decoded field is a machine word here.
pub open spec fn fits_usize(x: u64) -> bool {
    x <= usize::MAX
}

/// One received datagram: one that does not decode to a chunk packet, or whose
/// fields are not machine words, changes nothing.
pub open spec fn accept_datagram_spec(m: ReaderModel, bytes: Seq<u8>) -> (
    ReaderModel,
    Option<(usize, Seq<u8>)>,
) {
    match chunk_from_wire(bytes) {
        Some(c) => if fits_usize(c.0) && fits_usize(c.1) && fits_usize(c.2) {
            accept_chunk_spec(m, c.0 as usize, c.1 as usize, c.2 as usize, c.3)
        } else {
            (m, None)
        },
        None => (m, None),
    }
}

/// The reader after datagrams `ds` in order, with what each of them delivered.
pub open spec fn feed(m: ReaderModel, ds: Seq<Seq<u8>>) -> (ReaderModel, Seq<
    Option<(usize, Seq<u8>)>,
>)
    decreases ds.len(),
{
    if ds.len() == 0 {
        (m, Seq::empty())
    } else {
        let (m1, outs) = feed(m, ds.drop_last());
        let (m2, o) = accept_datagram_spec(m1, ds.last());
        (m2, outs.push(o))
    }
}

/// The messages that `prune` keeps: those numbered after the last delivered one.
pub open spec fn newer_than(latest: usize) -> Set<usize> {
    Set::new(|k: usize| k > latest)
}

/// The first `n` entries of `keys`, as a set.
pub open spec fn removed_set(keys: Seq<usize>, n: int) -> Set<usize> {
    Set::new(|k: usize| exists|j: int| 0 <= j < n && keys[j] == k)
}

/// Pruning keeps a message exactly when its number is above the last
/// delivered one, with no upper bound, and keeps its chunks as they were.
pub proof fn lemma_prune_keeps_newer(pending: Map<usize, Map<usize, Seq<u8>>>, latest: usize)
    ensures
        forall|k: usize| #[trigger]
            pending.restrict(newer_than(latest)).contains_key(k) <==> (pending.contains_key(k) && k
                > latest),
        forall|k: usize| #[trigger]
            pending.restrict(newer_than(latest)).contains_key(k) ==> pending.restrict(
                newer_than(latest),
            )[k] == pending[k],
{
}

/// The chunks of one message as a map from index to bytes.
pub open spec fn parts_model(t: Map<usize, Vec<u8>>) -> Map<usize, Seq<u8>> {
    t.map_values(|v: Vec<u8>| v@)
}

/// The buffer of a reader as a map from message number to chunks.
pub open spec fn pending_model(b: Map<usize, HashMap<usize, Vec<u8>>>) -> Map<
    usize,
    Map<usize, Seq<u8>>,
> {
    b.map_values(|t: HashMap<usize, Vec<u8>>| parts_model(t@))
}

// ---------------------------------------------------------------------------
// The two ends of a link
// ---------------------------------------------------------------------------

/// The sending end of a link: its socket and the number of the last message sent.
#[derive(Clone)]
pub struct RemoteWriter<S> {
    socket: S,
    latest_send: usize,
}

/// The receiving end of a link: its socket, the chunks of unfinished messages
/// and the number of the last message delivered.
pub struct RemoteReader<S> {
    socket: S,
    buf: HashMap<usize, HashMap<usize, Vec<u8>>>,
    latest_read: usize,
}

impl<S> RemoteWriter<S> {
    /// Number of the last message sent.
    pub closed spec fn sent(&self) -> usize {
        self.latest_send
    }

    /// The socket the writer sends on.
    pub closed spec fn spec_socket(&self) -> S {
        self.socket
    }

    /// A writer on `socket` that has sent nothing yet.
    pub fn new(socket: S) -> (w: Self)
        ensures
            w.sent() == 0,
            w.spec_socket() == socket,
    {
        RemoteWriter { socket, latest_send: 0 }
    }

    /// The socket the writer sends on.
    pub fn socket(&self) -> (s: &S)
        ensures
            *s == self.spec_socket(),
    {
        &self.socket
    }

    /// Number of the last message sent.
    pub fn latest_send(&self) -> (n: usize)
        ensures
            n == self.sent(),
    {
        self.latest_send
    }

    /// Numbers the next message and cuts its encoded bytes `data` into the
    /// datagrams to send, in order.
    pub fn frame_message(&mut self, data: &[u8]) -> (datagrams: Vec<Vec<u8>>)
        requires
            old(self).sent() < usize::MAX,
        ensures
            final(self).sent() == old(self).sent() + 1,
            final(self).spec_socket() == old(self).spec_socket(),
            bytes_of(datagrams@) == frame_datagrams(final(self).sent(), data@),
            decodes_as_frame(bytes_of(datagrams@), final(self).sent(), data@),
    {
        self.latest_send = self.latest_send + 1;
        let id = self.latest_send;
        let len = data.len();
        let count: usize = if len % CHUNK_SIZE == 0 {
            len / CHUNK_SIZE
        } else {
            len / CHUNK_SIZE + 1
        };
        let ghost parts = chunks_of(data@);
        assert(parts.len() == count);
        let mut out: Vec<Vec<u8>> = Vec::new();
        let mut i: usize = 0;
        while i < count
            invariant
                0 <= i <= count,
                count == chunk_count(len as nat),
                len == data@.len(),
                parts == chunks_of(data@),
                out@.len() == i,
                forall|j: int|
                    0 <= j < i ==> #[trigger] out@[j]@ == chunk_wire(
                        id as u64,
                        count as u64,
                        j as u64,
                        parts[j],
                    ),
                forall|j: int|
                    0 <= j < i ==> chunk_from_wire(#[trigger] out@[j]@) == Some(
                        (id as u64, count as u64, j as u64, parts[j]),
                    ),
            decreases count - i,
        {
            proof {
                lemma_chunk_start(len as nat, i as int);
            }
            let start: usize = i * CHUNK_SIZE;
            let end: usize = if len - start < CHUNK_SIZE {
                len
            } else {
                start + CHUNK_SIZE
            };
            let part = vstd::slice::slice_to_vec(vstd::slice::slice_subrange(data, start, end));
            assert(part@ == chunk_at(data@, i as int));
            assert(part@.len() <= CHUNK_SIZE);
            let packet = encode_chunk(id as u64, count as u64, i as u64, part);
            out.push(packet);
            i = i + 1;
        }
        assert(bytes_of(out@) =~= frame_datagrams(id, data@));
        assert forall|j: int| 0 <= j < out@.len() implies chunk_from_wire(#[trigger] bytes_of(out@)[j])
            == Some((id as u64, count as u64, j as u64, parts[j])) by {
            assert(bytes_of(out@)[j] == out@[j]@);
        }
        out
    }
}

impl<S> View for RemoteReader<S> {
    type V = ReaderModel;

    closed spec fn view(&self) -> ReaderModel {
        ReaderModel { pending: pending_model(self.buf@), latest_read: self.latest_read }
    }
}

impl<S> RemoteReader<S> {
    /// The socket the reader receives on.
    pub closed spec fn spec_socket(&self) -> S {
        self.socket
    }

    /// A reader on `socket` that holds no chunk and has delivered nothing.
    pub fn new(socket: S) -> (r: Self)
        ensures
            r@.pending == Map::<usize, Map<usize, Seq<u8>>>::empty(),
            r@.latest_read == 0,
            r.spec_socket() == socket,
    {
        let r = RemoteReader { socket, buf: HashMap::new(), latest_read: 0 };
        assert(r@.pending =~= Map::<usize, Map<usize, Seq<u8>>>::empty());
        r
    }

    /// The socket the reader receives on.
    pub fn socket(&self) -> (s: &S)
        ensures
            *s == self.spec_socket(),
    {
        &self.socket
    }

    /// Number of the last message delivered.
    pub fn latest_read(&self) -> (n: usize)
        ensures
            n == self@.latest_read,
    {
        self.latest_read
    }

    /// Number of messages of which some but not all chunks have arrived.
    pub fn pending_count(&self) -> (n: usize)
        ensures
            n == self@.pending.len(),
    {
        proof {
            assert(self@.pending.dom() =~= self.buf@.dom());
        }
        self.buf.len()
    }

    /// Stores one chunk of message `id`; when the message is complete it is
    /// taken out of the buffer and returned with its bytes.
    pub fn accept_chunk(&mut self, id: usize, count: usize, index: usize, data: Vec<u8>) -> (done:
        Option<(usize, Vec<u8>)>)
        ensures
            (final(self)@, done.deep_view()) == accept_chunk_spec(
                old(self)@,
                id,
                count,
                index,
                data@,
            ),
            final(self).spec_socket() == old(self).spec_socket(),
    {
        let ghost old_pending = self@.pending;
        let ghost chunk = data@;
        let mut parts = match self.buf.remove(&id) {
            Some(t) => t,
            None => HashMap::new(),
        };
        proof {
            assert(pending_model(self.buf@) =~= old_pending.remove(id));
            if old_pending.contains_key(id) {
                assert(parts_model(parts@) == old_pending[id]);
            } else {
                assert(parts_model(parts@) =~= Map::<usize, Seq<u8>>::empty());
            }
        }
        let ghost before = parts_model(parts@);
        parts.insert(index, data);
        let ghost whole = parts_model(parts@);
        assert(whole =~= before.insert(index, chunk));
        assert(whole.dom() =~= parts@.dom());
        if parts.len() == count {
            let mut message: Vec<u8> = Vec::new();
            let mut i: usize = 0;
            while i < count
                invariant
                    0 <= i <= count,
                    message@ == Seq::new(i as nat, |j: int| part_or_empty(whole, j)).flatten(),
                    forall|j: usize|
                        i <= j ==> (#[trigger] parts@.contains_key(j) == whole.contains_key(j)),
                    forall|j: usize|
                        i <= j && #[trigger] parts@.contains_key(j) ==> parts@[j]@ == whole[j],
                decreases count - i,
            {
                let ghost prev = message@;
                match parts.remove(&i) {
                    Some(mut v) => {
                        message.append(&mut v);
                    },
                    None => {},
                }
                proof {
                    let f = |j: int| part_or_empty(whole, j);
                    assert(Seq::new((i + 1) as nat, f) =~= Seq::new(i as nat, f).push(f(i as int)));
                    Seq::new(i as nat, f).lemma_flatten_push(f(i as int));
                }
                i = i + 1;
            }
            proof {
                assert(pending_model(self.buf@) =~= old_pending.remove(id));
            }
            Some((id, message))
        } else {
            self.buf.insert(id, parts);
            proof {
                assert(pending_model(self.buf@) =~= old_pending.insert(id, whole));
            }
            None
        }
    }

    /// Takes in one datagram; returns the number and bytes of the message it
    /// completes, if it completes one.
    pub fn accept_datagram(&mut self, bytes: &[u8]) -> (done: Option<(usize, Vec<u8>)>)
        ensures
            (final(self)@, done.deep_view()) == accept_datagram_spec(old(self)@, bytes@),
            final(self).spec_socket() == old(self).spec_socket(),
    {
        match decode_chunk(bytes) {
            Some((id, count, index, data)) => {
                assert(data.deep_view() =~= data@);
                if id <= usize::MAX as u64 && count <= usize::MAX as u64 && index <= usize::MAX as u64 {
                    self.accept_chunk(id as usize, count as usize, index as usize, data)
                } else {
                    None
                }
            },
            None => None,
        }
    }

    /// Records that message `id` was delivered.
    pub fn mark_delivered(&mut self, id: usize)
        ensures
            final(self)@ == (ReaderModel { pending: old(self)@.pending, latest_read: id }),
            final(self).spec_socket() == old(self).spec_socket(),
    {
        self.latest_read = id;
    }

    /// When more than `MAX_PENDING` messages are unfinished, drops those
    /// numbered at or below the last delivered one.
    pub fn prune(&mut self)
        ensures
            final(self)@.latest_read == old(self)@.latest_read,
            final(self)@.pending == if old(self)@.pending.len() > MAX_PENDING {
                old(self)@.pending.restrict(newer_than(old(self)@.latest_read))
            } else {
                old(self)@.pending
            },
            old(self)@.pending.len() > MAX_PENDING ==> forall|k: usize|
                #[trigger] final(self)@.pending.contains_key(k) <==> (old(self)@.pending.contains_key(k)
                    && k > old(self)@.latest_read),
            forall|k: usize| #[trigger]
                final(self)@.pending.contains_key(k) ==> old(self)@.pending.contains_key(k)
                    && final(self)@.pending[k] == old(self)@.pending[k],
            final(self).spec_socket() == old(self).spec_socket(),
    {
        proof {
            assert(self@.pending.dom() =~= self.buf@.dom());
        }
        if self.buf.len() > MAX_PENDING {
            let from = self.latest_read;
            let ghost old_buf = self.buf@;
            let mut stale: Vec<usize> = Vec::new();
            let ghost all = vstd::std_specs::hash::spec_keys_iter(&self.buf).remaining();
            assert(all.unref().to_set() == old_buf.dom());
            let ghost mut seen: int = 0;
            for k in it: self.buf.keys()
                invariant
                    seen == it.index(),
                    all == it.seq(),
                    all.unref().to_set() == old_buf.dom(),
                    forall|j: int| 0 <= j < stale@.len() ==> #[trigger] stale@[j] <= from,
                    forall|j: int| 0 <= j < stale@.len() ==> old_buf.contains_key(#[trigger] stale@[j]),
                    forall|j: int| 0 <= j < seen && *all[j] <= from ==> stale@.contains(*all[j]),
            {
                assert(*k == *all[seen]);
                assert(all.unref().to_set().contains(*k));
                let ghost before = stale@;
                if *k <= from {
                    stale.push(*k);
                    assert(stale@[before.len() as int] == *k);
                }
                assert(forall|x: usize| before.contains(x) ==> stale@.contains(x)) by {
                    assert forall|x: usize| before.contains(x) implies stale@.contains(x) by {
                        let j = choose|j: int| 0 <= j < before.len() && before[j] == x;
                        assert(stale@[j] == x);
                    }
                }
                proof {
                    seen = seen + 1;
                }
            }
            assert(seen == all.len());
            assert forall|key: usize| old_buf.contains_key(key) && key <= from implies stale@.contains(key) by {
                assert(all.unref().to_set().contains(key));
                let j = choose|j: int| 0 <= j < all.unref().len() && all.unref()[j] == key;
                assert(*all[j] == key);
            }
            let mut n: usize = 0;
            while n < stale.len()
                invariant
                    self.buf@ == old_buf.remove_keys(removed_set(stale@, n as int)),
                    n <= stale@.len(),
                    self.latest_read == from,
                    self.socket == old(self).socket,
                decreases stale@.len() - n,
            {
                let key = stale[n];
                self.buf.remove(&key);
                assert(removed_set(stale@, n + 1) =~= removed_set(stale@, n as int).insert(key));
                assert(self.buf@ =~= old_buf.remove_keys(removed_set(stale@, n + 1)));
                n = n + 1;
            }
            proof {
                assert(self.buf@ =~= old_buf.restrict(newer_than(from)));
                assert(self@.pending =~= old(self)@.pending.restrict(newer_than(from)));
            }
        }
    }
}

} // verus!
