use std::collections::HashMap;
use vstd::prelude::*;
use vstd::set::fold::{is_fun_commutative, lemma_fold_empty, lemma_fold_insert};
use vstd::seq_lib::seq_to_set_is_finite;
use vstd::std_specs::hash::spec_keys_iter;
use vstd::std_specs::iter::IteratorSpec;
use vstd::string::StringSliceAdditionalSpecFns;

use crate::buffer::{newer_than, pushed, BufferedFrame, RingBuffer};
use crate::hex::{
    hex_ascii, hex_decode, hex_decode_panics, hex_has_prefix, hex_starts_with, law_hex_prefix_digits,
    lemma_decode_encode, lemma_hex_ascii_is_utf8, lower_hex_alphabet, spec_hex_decode,
};
use crate::protocol::{HandshakeError, ServerMessage};

verus! {

broadcast use vstd::std_specs::hash::group_hash_axioms;

/// Unique connection id (handed out in increasing order, wrapping).
pub type ConnId = u64;

/// A trust group hash: the first 8 bytes of SHA-256 of the group key, read
/// big-endian as one integer (see `hash_of` and `hash_bytes`).
pub type TrustGroupHash = u64;

/// The trust group hash of 8 bytes, big-endian.
pub open spec fn hash_of(b: Seq<u8>) -> u64 {
    ((b[0] as u64) << 56u64) | ((b[1] as u64) << 48u64) | ((b[2] as u64) << 40u64) | ((b[3] as u64) << 32u64)
        | ((b[4] as u64) << 24u64) | ((b[5] as u64) << 16u64) | ((b[6] as u64) << 8u64) | (b[7] as u64)
}

/// The 8 bytes of a trust group hash, big-endian.
pub open spec fn hash_bytes(h: u64) -> Seq<u8> {
    seq![
        (h >> 56u64) as u8, (h >> 48u64) as u8, (h >> 40u64) as u8, (h >> 32u64) as u8,
        (h >> 24u64) as u8, (h >> 16u64) as u8, (h >> 8u64) as u8, h as u8,
    ]
}

/// The hash of 8 bytes, big-endian.
pub fn hash_from_bytes(b: &[u8]) -> (h: u64)
    requires
        b@.len() == 8,
    ensures
        h == hash_of(b@),
{
    ((b[0] as u64) << 56u64) | ((b[1] as u64) << 48u64) | ((b[2] as u64) << 40u64) | ((b[3] as u64) << 32u64)
        | ((b[4] as u64) << 24u64) | ((b[5] as u64) << 16u64) | ((b[6] as u64) << 8u64) | (b[7] as u64)
}

/// The 8 bytes of a hash, big-endian.
pub fn hash_to_bytes(h: u64) -> (b: Vec<u8>)
    ensures
        b@ == hash_bytes(h),
{
    let b = vec![
        (h >> 56u64) as u8, (h >> 48u64) as u8, (h >> 40u64) as u8, (h >> 32u64) as u8,
        (h >> 24u64) as u8, (h >> 16u64) as u8, (h >> 8u64) as u8, h as u8,
    ];
    assert(b@ =~= hash_bytes(h));
    b
}

/// Reading 8 bytes as a hash and writing the hash back gives the same bytes, and
/// the other way round.
pub proof fn lemma_hash_bytes_roundtrip(b: Seq<u8>, h: u64)
    requires
        b.len() == 8,
    ensures
        hash_bytes(hash_of(b)) == b,
        hash_of(hash_bytes(h)) == h,
{
    let (b0, b1, b2, b3, b4, b5, b6, b7) = (b[0], b[1], b[2], b[3], b[4], b[5], b[6], b[7]);
    let x = hash_of(b);
    assert(x == ((b0 as u64) << 56u64) | ((b1 as u64) << 48u64) | ((b2 as u64) << 40u64) | ((b3 as u64) << 32u64)
        | ((b4 as u64) << 24u64) | ((b5 as u64) << 16u64) | ((b6 as u64) << 8u64) | (b7 as u64));
    assert(
        (x >> 56u64) as u8 == b0 && (x >> 48u64) as u8 == b1 && (x >> 40u64) as u8 == b2 && (x >> 32u64) as u8 == b3
        && (x >> 24u64) as u8 == b4 && (x >> 16u64) as u8 == b5 && (x >> 8u64) as u8 == b6 && x as u8 == b7
    ) by (bit_vector)
        requires
            x == ((b0 as u64) << 56u64) | ((b1 as u64) << 48u64) | ((b2 as u64) << 40u64) | ((b3 as u64) << 32u64)
                | ((b4 as u64) << 24u64) | ((b5 as u64) << 16u64) | ((b6 as u64) << 8u64) | (b7 as u64),
    ;
    assert(hash_bytes(x) =~= b);
    let hb = hash_bytes(h);
    assert(hash_of(hb) == ((((h >> 56u64) as u8) as u64) << 56u64) | ((((h >> 48u64) as u8) as u64) << 48u64)
        | ((((h >> 40u64) as u8) as u64) << 40u64) | ((((h >> 32u64) as u8) as u64) << 32u64)
        | ((((h >> 24u64) as u8) as u64) << 24u64) | ((((h >> 16u64) as u8) as u64) << 16u64)
        | ((((h >> 8u64) as u8) as u64) << 8u64) | ((h as u8) as u64));
    assert(((((h >> 56u64) as u8) as u64) << 56u64) | ((((h >> 48u64) as u8) as u64) << 48u64)
        | ((((h >> 40u64) as u8) as u64) << 40u64) | ((((h >> 32u64) as u8) as u64) << 32u64)
        | ((((h >> 24u64) as u8) as u64) << 24u64) | ((((h >> 16u64) as u8) as u64) << 16u64)
        | ((((h >> 8u64) as u8) as u64) << 8u64) | ((h as u8) as u64) == h) by (bit_vector);
}

/// A connected device, as the relay's rules see it.
pub struct Connection {
    pub conn_id: ConnId,
    pub device_id: String,
    /// Monotonic clock reading (nanoseconds) at connection time.
    pub connected_at: u64,
}

/// State for a single trust group: its connections, keyed by id, and its
/// buffer of recent frames.
pub struct TrustGroupState {
    pub connections: HashMap<ConnId, Connection>,
    pub buffer: RingBuffer,
}

impl TrustGroupState {
    /// A group with no connections and an empty buffer of the given size.
    pub fn new(buffer_size: usize) -> (g: Self)
        ensures
            g.connections@ == Map::<ConnId, Connection>::empty(),
            g.buffer@ == Seq::<(u64, Seq<u8>)>::empty(),
            g.buffer.capacity() == buffer_size,
            g.buffer.wf(),
    {
        TrustGroupState { connections: HashMap::new(), buffer: RingBuffer::new(buffer_size) }
    }

    /// The connections a frame from `sender_id` is forwarded to: every
    /// connection of the group but the sender, each once.
    pub fn broadcast(&self, sender_id: ConnId) -> (recipients: Vec<ConnId>)
        ensures
            recipients@.no_duplicates(),
            recipients@.to_set() == self.connections@.dom().remove(sender_id),
    {
        let mut out: Vec<ConnId> = Vec::new();
        let ghost m = &self.connections;
        for id in it: self.connections.keys()
            invariant
                it.seq() == spec_keys_iter(m).remaining(),
                out@.no_duplicates(),
                forall|j: int| 0 <= j < out@.len() ==> out@[j] != sender_id,
                out@.to_set() == it.seq().take(it.index()).map_values(|r: &ConnId| *r).to_set().remove(sender_id),
        {
            let ghost before = out@;
            let ghost i = it.index();
            let ghost ks = it.seq().map_values(|r: &ConnId| *r);
            assert(it.seq().take(i + 1).map_values(|r: &ConnId| *r) =~= it.seq().take(i).map_values(|r: &ConnId| *r).push(*id));
            if *id != sender_id {
                proof {
                    assert(spec_keys_iter(m).remaining().no_duplicates());
                    assert(!before.contains(*id)) by {
                        if before.contains(*id) {
                            let j = choose|j: int| 0 <= j < before.len() && before[j] == *id;
                            assert(before.to_set().contains(*id));
                            assert(it.seq().take(i).map_values(|r: &ConnId| *r).to_set().contains(*id));
                            let k = choose|k: int| 0 <= k < i && it.seq()[k] == id;
                            assert(it.seq()[i] == id);
                        }
                    }
                }
                out.push(*id);
                proof { before.lemma_push_to_set_commute(*id); }
            }
            proof { it.seq().take(i).map_values(|r: &ConnId| *r).lemma_push_to_set_commute(*id); }
            assert(out@.to_set() =~= it.seq().take(i + 1).map_values(|r: &ConnId| *r).to_set().remove(sender_id));
        }
        proof {
            let ks = spec_keys_iter(m).remaining();
            assert(ks.take(ks.len() as int) =~= ks);
            assert(ks.unref() =~= ks.map_values(|r: &ConnId| *r));
        }
        out
    }

    /// Number of connected peers.
    pub fn peer_count(&self) -> (n: usize)
        ensures
            n == self.connections@.len(),
    {
        self.connections.len()
    }
}

/// Whether the hex encoding of group hash `k` starts with `prefix`.
pub open spec fn hash_has_prefix(k: TrustGroupHash, prefix: Seq<u8>) -> bool {
    hex_starts_with(hash_bytes(k), prefix)
}

/// How the `trust_group` of a HELLO (its UTF-8 bytes) names a group among the
/// active ones: 16 hex digits give the hash itself; 3 to 6 characters are a
/// prefix of the hex of exactly one active group's hash.
pub open spec fn spec_resolve(active: Set<TrustGroupHash>, tg: Seq<u8>) -> Result<TrustGroupHash, HandshakeError> {
    if tg.len() == 16 {
        match spec_hex_decode(tg) {
            Some(b) => if b.len() == 8 { Ok(hash_of(b)) } else { Err(HandshakeError::InvalidTrustGroup) },
            None => Err(HandshakeError::InvalidTrustGroup),
        }
    } else if 3 <= tg.len() <= 6 {
        if !(exists|k: TrustGroupHash| #[trigger] active.contains(k) && hash_has_prefix(k, tg)) {
            Err(HandshakeError::NoMatchingTrustGroup)
        } else if exists|k1: TrustGroupHash, k2: TrustGroupHash|
            k1 != k2 && #[trigger] active.contains(k1) && #[trigger] active.contains(k2) && hash_has_prefix(k1, tg)
                && hash_has_prefix(k2, tg) {
            Err(HandshakeError::AmbiguousTrustGroupPrefix)
        } else {
            Ok(choose|k: TrustGroupHash| #[trigger] active.contains(k) && hash_has_prefix(k, tg))
        }
    } else {
        Err(HandshakeError::InvalidTrustGroupLength)
    }
}

/// A HELLO that names a group by the 16 hex digits of its hash names that
/// group, whether or not it is active yet.
pub proof fn law_full_hash_resolves(active: Set<TrustGroupHash>, h: TrustGroupHash)
    ensures
        spec_resolve(active, hex_ascii(hash_bytes(h))) == Ok::<TrustGroupHash, HandshakeError>(h),
{
    lemma_decode_encode(hash_bytes(h));
    lemma_hex_ascii_is_utf8(hash_bytes(h));
    lemma_hash_bytes_roundtrip(hash_bytes(h), h);
}

/// A prefix (3 to 6 characters) of the hex of exactly one active group's hash
/// names that group.
pub proof fn law_unique_prefix_resolves(active: Set<TrustGroupHash>, h: TrustGroupHash, prefix: Seq<u8>)
    requires
        3 <= prefix.len() <= 6,
        active.contains(h),
        hash_has_prefix(h, prefix),
        forall|k: TrustGroupHash| #[trigger] active.contains(k) && k != h ==> !hash_has_prefix(k, prefix),
    ensures
        spec_resolve(active, prefix) == Ok::<TrustGroupHash, HandshakeError>(h),
{
    assert(active.contains(h) && hash_has_prefix(h, prefix));
}

/// The `i`-th digit of the hex of a group hash, as an ASCII byte: the character
/// of "0123456789abcdef" at the high nibble of byte `i / 2` of the hash's
/// big-endian bytes for an even `i`, at its low nibble for an odd `i`.
pub open spec fn hash_digit(k: TrustGroupHash, i: int) -> u8 {
    lower_hex_alphabet()[if i % 2 == 0 { hash_bytes(k)[i / 2] / 16 } else { hash_bytes(k)[i / 2] % 16 } as int] as u8
}

/// A group hash matches a prefix exactly when the prefix has at most 16
/// characters and each of them is the hash's hex digit at that position; a
/// prefix that differs from the hash's hex anywhere does not match.
pub proof fn law_group_prefix_digits(k: TrustGroupHash, prefix: Seq<u8>)
    ensures
        hash_has_prefix(k, prefix) <==> prefix.len() <= 16 && forall|i: int|
            0 <= i < prefix.len() ==> #[trigger] prefix[i] == hash_digit(k, i),
{
    law_hex_prefix_digits(hash_bytes(k), prefix);
    assert(hash_bytes(k).len() == 8);
    if prefix.len() <= 16 {
        assert(forall|i: int| 0 <= i < prefix.len() ==> (#[trigger] prefix[i] == hash_digit(k, i)) == (prefix[i]
            == lower_hex_alphabet()[if i % 2 == 0 {
            hash_bytes(k)[i / 2] / 16
        } else {
            hash_bytes(k)[i / 2] % 16
        } as int] as u8));
    }
}

/// A word-code prefix (3 to 6 characters) resolves only to an active group
/// whose hex begins with every character of the prefix, in place.
pub proof fn law_prefix_resolves_to_match(active: Set<TrustGroupHash>, prefix: Seq<u8>, h: TrustGroupHash)
    requires
        3 <= prefix.len() <= 6,
        spec_resolve(active, prefix) == Ok::<TrustGroupHash, HandshakeError>(h),
    ensures
        active.contains(h),
        forall|i: int| 0 <= i < prefix.len() ==> #[trigger] prefix[i] == hash_digit(h, i),
{
    assert(active.contains(h) && hash_has_prefix(h, prefix));
    law_group_prefix_digits(h, prefix);
}

/// A word-code prefix (3 to 6 characters) that differs somewhere from the hex
/// of every active group names no group.
pub proof fn law_mismatched_prefix_names_no_group(active: Set<TrustGroupHash>, prefix: Seq<u8>)
    requires
        3 <= prefix.len() <= 6,
        forall|k: TrustGroupHash| #[trigger] active.contains(k) ==> exists|i: int|
            0 <= i < prefix.len() && prefix[i] != #[trigger] hash_digit(k, i),
    ensures
        spec_resolve(active, prefix) == Err::<TrustGroupHash, HandshakeError>(HandshakeError::NoMatchingTrustGroup),
{
    assert forall|k: TrustGroupHash| #[trigger] active.contains(k) implies !hash_has_prefix(k, prefix) by {
        law_group_prefix_digits(k, prefix);
        let i = choose|i: int| 0 <= i < prefix.len() && prefix[i] != #[trigger] hash_digit(k, i);
        assert(prefix[i] != hash_digit(k, i));
    }
}

/// How the groups change when connection `conn` joins group `tg`: the group
/// (created with an empty buffer of `buffer_size` frames if there was none)
/// gains the connection; every other group stays as it was.
pub open spec fn joined(
    before: Map<TrustGroupHash, TrustGroupState>,
    after: Map<TrustGroupHash, TrustGroupState>,
    tg: TrustGroupHash,
    conn: Connection,
    buffer_size: usize,
) -> bool {
    &&& after.dom() == before.dom().insert(tg)
    &&& forall|k: TrustGroupHash| k != tg && #[trigger] before.contains_key(k) ==> after[k] == before[k]
    &&& after[tg].connections@ == (if before.contains_key(tg) {
        before[tg].connections@
    } else {
        Map::<ConnId, Connection>::empty()
    }).insert(conn.conn_id, conn)
    &&& before.contains_key(tg) ==> after[tg].buffer == before[tg].buffer
    &&& !before.contains_key(tg) ==> after[tg].buffer@ == Seq::<(u64, Seq<u8>)>::empty()
        && after[tg].buffer.capacity() == buffer_size
}

/// How the groups change when connection `conn_id` leaves group `tg`: the group
/// loses the connection and is removed once it has none; every other group
/// stays as it was; nothing changes when there is no such group.
pub open spec fn departed(
    before: Map<TrustGroupHash, TrustGroupState>,
    after: Map<TrustGroupHash, TrustGroupState>,
    tg: TrustGroupHash,
    conn_id: ConnId,
) -> bool {
    if before.contains_key(tg) {
        let remaining = before[tg].connections@.remove(conn_id);
        &&& remaining.len() == 0 ==> after == before.remove(tg)
        &&& remaining.len() > 0 ==> {
            &&& after.dom() == before.dom()
            &&& forall|k: TrustGroupHash| k != tg && #[trigger] before.contains_key(k) ==> after[k] == before[k]
            &&& after[tg].connections@ == remaining
            &&& after[tg].buffer == before[tg].buffer
        }
    } else {
        after == before
    }
}

/// A connection that joins a group and then leaves it leaves every group as it
/// was: an existing group gets its connections and buffer back, and a group the
/// connection created is removed again (groups being never empty, as in a
/// well-formed relay).
pub proof fn law_join_then_leave(
    before: Map<TrustGroupHash, TrustGroupState>,
    middle: Map<TrustGroupHash, TrustGroupState>,
    after: Map<TrustGroupHash, TrustGroupState>,
    tg: TrustGroupHash,
    conn: Connection,
    buffer_size: usize,
)
    requires
        joined(before, middle, tg, conn, buffer_size),
        departed(middle, after, tg, conn.conn_id),
        before.contains_key(tg) ==> !before[tg].connections@.contains_key(conn.conn_id),
        forall|k: TrustGroupHash| #[trigger] before.contains_key(k) ==> before[k].connections@.len() > 0,
    ensures
        after.dom() == before.dom(),
        forall|k: TrustGroupHash| k != tg && #[trigger] before.contains_key(k) ==> after[k] == before[k],
        before.contains_key(tg) ==> after[tg].connections@ == before[tg].connections@ && after[tg].buffer
            == before[tg].buffer,
{
    assert(middle.contains_key(tg));
    let remaining = middle[tg].connections@.remove(conn.conn_id);
    if before.contains_key(tg) {
        assert(remaining =~= before[tg].connections@);
        assert(after.dom() =~= before.dom());
    } else {
        assert(remaining =~= Map::<ConnId, Connection>::empty());
        assert(remaining.dom() =~= Set::<ConnId>::empty());
        assert(remaining.len() == 0);
        assert(after.dom() =~= middle.dom().remove(tg));
        assert(after.dom() =~= before.dom());
    }
}

/// A group as the relay keeps it: a well-formed buffer, at least one
/// connection, and its connections keyed by their ids.
pub open spec fn group_ok(g: TrustGroupState) -> bool {
    &&& g.buffer.wf()
    &&& g.connections@.len() > 0
    &&& forall|c: ConnId| #[trigger] g.connections@.contains_key(c) ==> g.connections@[c].conn_id == c
}

/// Whether connection `c` is registered in some group.
pub open spec fn registered(groups: Map<TrustGroupHash, TrustGroupState>, c: ConnId) -> bool {
    exists|k: TrustGroupHash| #[trigger] groups.contains_key(k) && groups[k].connections@.contains_key(c)
}

/// The groups of a well-formed relay: each kept as `group_ok` says, and each
/// connection registered in one group only.
pub open spec fn groups_wf(groups: Map<TrustGroupHash, TrustGroupState>) -> bool {
    &&& forall|k: TrustGroupHash| #[trigger] groups.contains_key(k) ==> group_ok(groups[k])
    &&& forall|k1: TrustGroupHash, k2: TrustGroupHash, c: ConnId|
        #![trigger groups[k1].connections@.contains_key(c), groups[k2].connections@.contains_key(c)]
        groups.contains_key(k1) && groups.contains_key(k2) && groups[k1].connections@.contains_key(c)
            && groups[k2].connections@.contains_key(c) ==> k1 == k2
}

/// Every registered connection id is below `next` (unless the id counter has
/// wrapped to 0).
pub open spec fn ids_below(groups: Map<TrustGroupHash, TrustGroupState>, next: ConnId) -> bool {
    next == 0 || forall|k: TrustGroupHash, c: ConnId|
        #[trigger] groups.contains_key(k) && #[trigger] groups[k].connections@.contains_key(c) ==> c < next
}

/// Changing group `tg` only, into a group kept as `group_ok` whose connections
/// are in no other group, keeps the groups well-formed.
proof fn lemma_groups_update(
    before: Map<TrustGroupHash, TrustGroupState>,
    after: Map<TrustGroupHash, TrustGroupState>,
    tg: TrustGroupHash,
)
    requires
        groups_wf(before),
        forall|k: TrustGroupHash| #[trigger] after.contains_key(k) && k != tg ==> before.contains_key(k) && after[k]
            == before[k],
        after.contains_key(tg) ==> group_ok(after[tg]),
        after.contains_key(tg) ==> forall|c: ConnId| #[trigger] after[tg].connections@.contains_key(c)
            ==> forall|k: TrustGroupHash| #[trigger] before.contains_key(k) && k != tg
            ==> !before[k].connections@.contains_key(c),
    ensures
        groups_wf(after),
{
    assert forall|k: TrustGroupHash| #[trigger] after.contains_key(k) implies group_ok(after[k]) by {
        if k != tg {
            assert(before.contains_key(k));
        }
    }
    assert forall|k1: TrustGroupHash, k2: TrustGroupHash, c: ConnId|
        after.contains_key(k1) && after.contains_key(k2) && #[trigger] after[k1].connections@.contains_key(c)
            && #[trigger] after[k2].connections@.contains_key(c) implies k1 == k2 by {
        if k1 != tg && k2 != tg {
            assert(before.contains_key(k1) && before.contains_key(k2));
            assert(before[k1].connections@.contains_key(c) && before[k2].connections@.contains_key(c));
        } else if k1 == tg && k2 != tg {
            assert(before.contains_key(k2));
            assert(before[k2].connections@.contains_key(c));
        } else if k2 == tg && k1 != tg {
            assert(before.contains_key(k1));
            assert(before[k1].connections@.contains_key(c));
        }
    }
}

/// One term of the peer total: the connections of group `k`.
pub open spec fn peer_term(groups: Map<TrustGroupHash, TrustGroupState>) -> spec_fn(int, TrustGroupHash) -> int {
    |acc: int, k: TrustGroupHash| acc + groups[k].connections@.len()
}

/// The number of connections across all trust groups.
pub open spec fn total_peers(groups: Map<TrustGroupHash, TrustGroupState>) -> int {
    groups.dom().fold(0int, peer_term(groups))
}

/// The connections of the groups listed in `keys`, summed in order.
pub open spec fn listed_peers(groups: Map<TrustGroupHash, TrustGroupState>, keys: Seq<TrustGroupHash>) -> int
    decreases keys.len(),
{
    if keys.len() == 0 {
        0
    } else {
        listed_peers(groups, keys.drop_last()) + groups[keys.last()].connections@.len()
    }
}

proof fn lemma_listed_peers_is_total(groups: Map<TrustGroupHash, TrustGroupState>, keys: Seq<TrustGroupHash>)
    requires
        keys.no_duplicates(),
    ensures
        keys.to_set().fold(0int, peer_term(groups)) == listed_peers(groups, keys),
    decreases keys.len(),
{
    let f = peer_term(groups);
    assert(is_fun_commutative(f));
    if keys.len() == 0 {
        assert(keys.to_set() =~= Set::<TrustGroupHash>::empty());
        lemma_fold_empty(0int, f);
    } else {
        let init = keys.drop_last();
        lemma_listed_peers_is_total(groups, init);
        assert(init.push(keys.last()) =~= keys);
        init.lemma_push_to_set_commute(keys.last());
        seq_to_set_is_finite(init);
        assert(!init.to_set().contains(keys.last())) by {
            if init.to_set().contains(keys.last()) {
                let j = choose|j: int| 0 <= j < init.len() && init[j] == keys.last();
                assert(keys[j] == keys[keys.len() - 1]);
            }
        }
        lemma_fold_insert(init.to_set(), 0int, f, keys.last());
    }
}

proof fn lemma_fold_agree(m1: Map<TrustGroupHash, TrustGroupState>, m2: Map<TrustGroupHash, TrustGroupState>, keys: Set<TrustGroupHash>)
    requires
        keys.finite(),
        forall|k: TrustGroupHash| #[trigger] keys.contains(k) ==> m1[k].connections@.len() == m2[k].connections@.len(),
    ensures
        keys.fold(0int, peer_term(m1)) == keys.fold(0int, peer_term(m2)),
    decreases keys.len(),
{
    let f1 = peer_term(m1);
    let f2 = peer_term(m2);
    assert(is_fun_commutative(f1));
    assert(is_fun_commutative(f2));
    if keys.len() == 0 {
        assert(keys =~= Set::<TrustGroupHash>::empty());
        lemma_fold_empty(0int, f1);
        lemma_fold_empty(0int, f2);
    } else {
        let a = keys.choose();
        assert(keys.contains(a));
        let rest = keys.remove(a);
        lemma_fold_agree(m1, m2, rest);
        assert(rest.insert(a) =~= keys);
        lemma_fold_insert(rest, 0int, f1, a);
        lemma_fold_insert(rest, 0int, f2, a);
    }
}

/// The peer total is the connections of group `k` plus those of the others.
proof fn lemma_total_split(m: Map<TrustGroupHash, TrustGroupState>, k: TrustGroupHash)
    requires
        m.dom().finite(),
    ensures
        total_peers(m) == total_peers(m.remove(k)) + if m.contains_key(k) { m[k].connections@.len() as int } else { 0 },
{
    if m.contains_key(k) {
        let rest = m.dom().remove(k);
        assert(is_fun_commutative(peer_term(m)));
        assert(rest.insert(k) =~= m.dom());
        lemma_fold_insert(rest, 0int, peer_term(m), k);
        assert(m.remove(k).dom() =~= rest);
        lemma_fold_agree(m, m.remove(k), rest);
    } else {
        assert(m.remove(k) =~= m);
    }
}

proof fn lemma_listed_peers_prefix(groups: Map<TrustGroupHash, TrustGroupState>, keys: Seq<TrustGroupHash>, i: int)
    requires
        0 <= i <= keys.len(),
    ensures
        listed_peers(groups, keys.take(i)) <= listed_peers(groups, keys),
    decreases keys.len(),
{
    if i < keys.len() {
        lemma_listed_peers_prefix(groups, keys.drop_last(), i);
        assert(keys.drop_last().take(i) =~= keys.take(i));
    } else {
        assert(keys.take(i) =~= keys);
    }
}

/// How long a word code stays valid: 5 minutes, in nanoseconds.
pub const WORD_CODE_TTL_NANOS: u64 = 300_000_000_000;

/// Most connection attempts per address per window.
pub const RATE_LIMIT_MAX: u32 = 5;

/// The rate-limit window: 60 seconds, in nanoseconds.
pub const RATE_LIMIT_WINDOW_NANOS: u64 = 60_000_000_000;

/// Time elapsed from `earlier` to `now` on the monotonic clock, zero if `earlier`
/// is later (as `Instant::duration_since` saturates).
pub open spec fn elapsed(earlier: u64, now: u64) -> int {
    if now >= earlier { now - earlier } else { 0 }
}

/// The word code entries held in `codes`, by words (the keys are distinct).
pub open spec fn codes_map(codes: Seq<(String, WordCodeEntry)>) -> Map<Seq<char>, (Seq<char>, Seq<char>, u64)> {
    Map::new(
        |w: Seq<char>| exists|i: int| 0 <= i < codes.len() && #[trigger] codes[i].0@ == w,
        |w: Seq<char>| {
            let i = choose|i: int| 0 <= i < codes.len() && #[trigger] codes[i].0@ == w;
            (codes[i].1.tg_hash@, codes[i].1.join_code@, codes[i].1.created_at)
        },
    )
}

/// Whether a word code registered at `created_at` is still valid at `now`.
pub open spec fn code_live(created_at: u64, now: u64) -> bool {
    elapsed(created_at, now) < WORD_CODE_TTL_NANOS
}

/// The word codes that are still valid at `now`.
pub open spec fn live_codes(m: Map<Seq<char>, (Seq<char>, Seq<char>, u64)>, now: u64) -> Map<
    Seq<char>,
    (Seq<char>, Seq<char>, u64),
> {
    Map::new(|w: Seq<char>| m.contains_key(w) && code_live(m[w].2, now), |w: Seq<char>| m[w])
}

/// The window of an address at `now`, before the attempt is counted: a fresh one
/// for an unknown address or once the window is 60 seconds old.
pub open spec fn rate_window(limits: Map<u128, (u32, u64)>, ip: u128, now: u64) -> (u32, u64) {
    let (count, start) = if limits.contains_key(ip) { limits[ip] } else { (0u32, now) };
    if elapsed(start, now) >= RATE_LIMIT_WINDOW_NANOS {
        (0u32, now)
    } else {
        (count, start)
    }
}

proof fn lemma_codes_map_at(codes: Seq<(String, WordCodeEntry)>, i: int)
    requires
        0 <= i < codes.len(),
        forall|a: int, b: int| 0 <= a < b < codes.len() ==> codes[a].0@ != codes[b].0@,
    ensures
        codes_map(codes).contains_key(codes[i].0@),
        codes_map(codes)[codes[i].0@] == (codes[i].1.tg_hash@, codes[i].1.join_code@, codes[i].1.created_at),
{
    let w = codes[i].0@;
    assert(codes[i].0@ == w);
    let j = choose|j: int| 0 <= j < codes.len() && #[trigger] codes[j].0@ == w;
    assert(j == i);
}

proof fn lemma_codes_map_remove(codes: Seq<(String, WordCodeEntry)>, i: int)
    requires
        0 <= i < codes.len(),
        forall|a: int, b: int| 0 <= a < b < codes.len() ==> codes[a].0@ != codes[b].0@,
    ensures
        forall|a: int, b: int| 0 <= a < b < codes.remove(i).len() ==> codes.remove(i)[a].0@ != codes.remove(i)[b].0@,
        codes_map(codes.remove(i)) == codes_map(codes).remove(codes[i].0@),
{
    let r = codes.remove(i);
    assert forall|a: int| 0 <= a < r.len() implies #[trigger] r[a] == codes[if a < i { a } else { a + 1 }] by {}
    assert forall|a: int, b: int| 0 <= a < b < r.len() implies r[a].0@ != r[b].0@ by {
        assert(r[a] == codes[if a < i { a } else { a + 1 }]);
        assert(r[b] == codes[if b < i { b } else { b + 1 }]);
    }
    let target = codes_map(codes).remove(codes[i].0@);
    assert forall|w: Seq<char>| codes_map(r).contains_key(w) <==> target.contains_key(w) by {
        if codes_map(r).contains_key(w) {
            let a = choose|a: int| 0 <= a < r.len() && #[trigger] r[a].0@ == w;
            let j = if a < i { a } else { a + 1 };
            assert(r[a] == codes[j]);
            lemma_codes_map_at(codes, j);
        }
        if target.contains_key(w) {
            let j = choose|j: int| 0 <= j < codes.len() && #[trigger] codes[j].0@ == w;
            let a = if j < i { j } else { j - 1 };
            assert(r[a] == codes[j]);
        }
    }
    assert forall|w: Seq<char>| #[trigger] codes_map(r).contains_key(w) implies codes_map(r)[w] == target[w] by {
        let a = choose|a: int| 0 <= a < r.len() && #[trigger] r[a].0@ == w;
        let j = if a < i { a } else { a + 1 };
        assert(r[a] == codes[j]);
        lemma_codes_map_at(r, a);
        lemma_codes_map_at(codes, j);
    }
    assert(codes_map(r) =~= target);
}

#[verifier::rlimit(40)]
proof fn lemma_register_codes(
    old_codes: Seq<(String, WordCodeEntry)>,
    kept: Seq<(String, WordCodeEntry)>,
    src: Seq<int>,
    codes: Seq<(String, WordCodeEntry)>,
    now: u64,
)
    requires
        codes.len() == kept.len() + 1,
        src.len() == kept.len(),
        forall|a: int| 0 <= a < kept.len() ==> codes[a] == kept[a],
        forall|a: int, b: int| 0 <= a < b < old_codes.len() ==> old_codes[a].0@ != old_codes[b].0@,
        forall|a: int, b: int| 0 <= a < b < src.len() ==> src[a] < src[b],
        forall|a: int| #![trigger src[a]] 0 <= a < src.len() ==> 0 <= src[a] < old_codes.len() && old_codes[src[a]] == kept[a]
            && code_live(old_codes[src[a]].1.created_at, now) && old_codes[src[a]].0@ != codes[kept.len() as int].0@,
        forall|j: int| #![trigger old_codes[j]] 0 <= j < old_codes.len() && code_live(old_codes[j].1.created_at, now)
            && old_codes[j].0@ != codes[kept.len() as int].0@
            ==> exists|a: int| 0 <= a < src.len() && #[trigger] src[a] == j,
    ensures
        forall|a: int, b: int| 0 <= a < b < codes.len() ==> codes[a].0@ != codes[b].0@,
        codes_map(codes) == live_codes(codes_map(old_codes), now).insert(
            codes[kept.len() as int].0@,
            (codes[kept.len() as int].1.tg_hash@, codes[kept.len() as int].1.join_code@, codes[kept.len() as int].1.created_at),
        ),
{
    let last = kept.len() as int;
    let w0 = codes[last].0@;
    let target = live_codes(codes_map(old_codes), now).insert(
        w0,
        (codes[last].1.tg_hash@, codes[last].1.join_code@, codes[last].1.created_at),
    );
    assert forall|a: int, b: int| 0 <= a < b < codes.len() implies codes[a].0@ != codes[b].0@ by {
        if b < last {
            assert(codes[a] == kept[a] && codes[b] == kept[b]);
            assert(src[a] < src[b]);
        } else {
            assert(codes[a] == kept[a]);
            assert(old_codes[src[a]] == kept[a]);
        }
    }
    assert forall|w: Seq<char>| codes_map(codes).contains_key(w) <==> target.contains_key(w) by {
        if codes_map(codes).contains_key(w) {
            let i = choose|i: int| 0 <= i < codes.len() && #[trigger] codes[i].0@ == w;
            if i < last {
                let j = src[i];
                assert(old_codes[j] == kept[i]);
                lemma_codes_map_at(old_codes, j);
            }
        }
        if target.contains_key(w) && w != w0 {
            assert(codes_map(old_codes).contains_key(w));
            let j = choose|j: int| 0 <= j < old_codes.len() && #[trigger] old_codes[j].0@ == w;
            lemma_codes_map_at(old_codes, j);
            let a = choose|a: int| 0 <= a < src.len() && #[trigger] src[a] == j;
            assert(codes[a] == kept[a]);
            assert(codes[a].0@ == w);
        }
        if w == w0 {
            assert(codes[last].0@ == w);
        }
    }
    assert forall|w: Seq<char>| #[trigger] codes_map(codes).contains_key(w) implies codes_map(codes)[w] == target[w] by {
        let i = choose|i: int| 0 <= i < codes.len() && #[trigger] codes[i].0@ == w;
        lemma_codes_map_at(codes, i);
        if i < last {
            let j = src[i];
            assert(old_codes[j] == kept[i]);
            lemma_codes_map_at(old_codes, j);
        }
    }
    assert(codes_map(codes) =~= target);
}

/// The rate limits after one attempt from `ip` at `now`.
pub open spec fn rate_step(limits: Map<u128, (u32, u64)>, ip: u128, now: u64) -> Map<u128, (u32, u64)> {
    let (count, start) = rate_window(limits, ip, now);
    limits.insert(ip, ((count + 1) as u32, start))
}

/// The rate limits after attempts from `ip` at each of `times`, in order.
pub open spec fn after_attempts(limits: Map<u128, (u32, u64)>, ip: u128, times: Seq<u64>) -> Map<u128, (u32, u64)>
    decreases times.len(),
{
    if times.len() == 0 {
        limits
    } else {
        rate_step(after_attempts(limits, ip, times.drop_last()), ip, times.last())
    }
}

/// Attempts from a new address are counted one by one while they stay within
/// 60 seconds of the first, and the attempt after the fifth in that window is
/// refused.
pub proof fn law_rate_limit_window(limits: Map<u128, (u32, u64)>, ip: u128, times: Seq<u64>)
    requires
        !limits.contains_key(ip),
        1 <= times.len() < u32::MAX,
        forall|j: int| 0 <= j < times.len() ==> elapsed(times[0], #[trigger] times[j]) < RATE_LIMIT_WINDOW_NANOS,
    ensures
        after_attempts(limits, ip, times)[ip] == (times.len() as u32, times[0]),
        (rate_window(after_attempts(limits, ip, times.drop_last()), ip, times.last()).0 + 1 <= RATE_LIMIT_MAX)
            <==> times.len() <= RATE_LIMIT_MAX,
    decreases times.len(),
{
    let prev = times.drop_last();
    if times.len() == 1 {
        assert(after_attempts(limits, ip, prev) == limits);
    } else {
        assert forall|j: int| 0 <= j < prev.len() implies elapsed(prev[0], #[trigger] prev[j]) < RATE_LIMIT_WINDOW_NANOS by {
            assert(prev[j] == times[j]);
        }
        law_rate_limit_window(limits, ip, prev);
        assert(elapsed(times[0], times[times.len() - 1]) < RATE_LIMIT_WINDOW_NANOS);
    }
}

/// The id that the `k`-th call of `next_conn_id` (counting from 0) hands out,
/// starting from `first`.
pub open spec fn nth_conn_id(first: ConnId, k: nat) -> ConnId
    decreases k,
{
    if k == 0 {
        first
    } else {
        nth_conn_id(first, (k - 1) as nat).wrapping_add(1)
    }
}

/// A new relay hands out the ids 1, 2, 3, ... in call order: each id is larger
/// than every one before it, so no two are equal (for fewer than `u64::MAX` calls).
pub proof fn law_conn_ids_count_up(k: nat, j: nat)
    requires
        j < k < u64::MAX,
    ensures
        nth_conn_id(1, k) == k + 1,
        nth_conn_id(1, j) < nth_conn_id(1, k),
{
    lemma_nth_conn_id(k);
    lemma_nth_conn_id(j);
}

proof fn lemma_nth_conn_id(k: nat)
    requires
        k < u64::MAX,
    ensures
        nth_conn_id(1, k) == k + 1,
    decreases k,
{
    if k > 0 {
        lemma_nth_conn_id((k - 1) as nat);
    }
}

/// An attempt from `other` leaves the window of every other address as it was:
/// rate limits are kept per address.
pub proof fn law_rate_limit_per_address(limits: Map<u128, (u32, u64)>, ip: u128, other: u128, t: u64, now: u64)
    requires
        ip != other,
    ensures
        rate_window(rate_step(limits, other, t), ip, now) == rate_window(limits, ip, now),
{
}

/// The rate limits after each of `attempts` (address, time), in order.
pub open spec fn after_all_attempts(limits: Map<u128, (u32, u64)>, attempts: Seq<(u128, u64)>) -> Map<u128, (u32, u64)>
    decreases attempts.len(),
{
    if attempts.len() == 0 {
        limits
    } else {
        let (ip, t) = attempts.last();
        rate_step(after_all_attempts(limits, attempts.drop_last()), ip, t)
    }
}

/// Any number of attempts from other addresses leave the entry of `ip` as it
/// was, so whether its next attempt is allowed does not depend on them.
pub proof fn law_rate_limit_others_never_count(limits: Map<u128, (u32, u64)>, ip: u128, attempts: Seq<(u128, u64)>, now: u64)
    requires
        forall|i: int| 0 <= i < attempts.len() ==> (#[trigger] attempts[i]).0 != ip,
    ensures
        after_all_attempts(limits, attempts).contains_key(ip) == limits.contains_key(ip),
        limits.contains_key(ip) ==> after_all_attempts(limits, attempts)[ip] == limits[ip],
        rate_window(after_all_attempts(limits, attempts), ip, now) == rate_window(limits, ip, now),
    decreases attempts.len(),
{
    if attempts.len() > 0 {
        let rest = attempts.drop_last();
        assert forall|i: int| 0 <= i < rest.len() implies (#[trigger] rest[i]).0 != ip by {
            assert(rest[i] == attempts[i]);
        }
        law_rate_limit_others_never_count(limits, ip, rest, now);
        assert(attempts[attempts.len() - 1].0 != ip);
    }
}

/// Within a window an attempt counts on top of the earlier ones; once the window
/// is 60 seconds old a new one starts with this attempt.
pub proof fn law_rate_limit_counts(limits: Map<u128, (u32, u64)>, ip: u128, t: u64, now: u64)
    ensures
        ({
            let (count, start) = rate_window(limits, ip, t);
            rate_window(rate_step(limits, ip, t), ip, now) == if elapsed(start, now) >= RATE_LIMIT_WINDOW_NANOS {
                (0u32, now)
            } else {
                ((count + 1) as u32, start)
            }
        }),
{
}

/// The word codes after `lookup_word_code(words, _)`.
pub open spec fn after_lookup(codes: Map<Seq<char>, (Seq<char>, Seq<char>, u64)>, words: Seq<char>) -> Map<
    Seq<char>,
    (Seq<char>, Seq<char>, u64),
> {
    codes.remove(words)
}

/// What `lookup_word_code(words, now)` returns: the trust group hash and join
/// code of a registered code that is still valid.
pub open spec fn lookup_outcome(codes: Map<Seq<char>, (Seq<char>, Seq<char>, u64)>, words: Seq<char>, now: u64) -> Option<
    (Seq<char>, Seq<char>),
> {
    if codes.contains_key(words) && code_live(codes[words].2, now) {
        Some((codes[words].0, codes[words].1))
    } else {
        None
    }
}

/// The word codes after `register_word_code(words, tg_hash, join_code, now)`.
pub open spec fn after_register(
    codes: Map<Seq<char>, (Seq<char>, Seq<char>, u64)>,
    words: Seq<char>,
    tg_hash: Seq<char>,
    join_code: Seq<char>,
    now: u64,
) -> Map<Seq<char>, (Seq<char>, Seq<char>, u64)> {
    live_codes(codes, now).insert(words, (tg_hash, join_code, now))
}

/// A word-code operation: a registration (words, trust group hash, join code,
/// time) or a lookup (words).
pub enum WordCodeOp {
    Register(Seq<char>, Seq<char>, Seq<char>, u64),
    Lookup(Seq<char>),
}

/// The words a word-code operation is about.
pub open spec fn op_words(op: WordCodeOp) -> Seq<char> {
    match op {
        WordCodeOp::Register(w, _, _, _) => w,
        WordCodeOp::Lookup(w) => w,
    }
}

/// The word codes after each of `ops`, in order.
pub open spec fn after_ops(codes: Map<Seq<char>, (Seq<char>, Seq<char>, u64)>, ops: Seq<WordCodeOp>) -> Map<
    Seq<char>,
    (Seq<char>, Seq<char>, u64),
>
    decreases ops.len(),
{
    if ops.len() == 0 {
        codes
    } else {
        let prev = after_ops(codes, ops.drop_last());
        match ops.last() {
            WordCodeOp::Register(w, tg, jc, t) => after_register(prev, w, tg, jc, t),
            WordCodeOp::Lookup(w) => after_lookup(prev, w),
        }
    }
}

/// Operations on other words never add the code `words`, and keep it, unchanged,
/// only if it was there; registrations at times within its lifetime keep it.
proof fn lemma_other_ops(codes: Map<Seq<char>, (Seq<char>, Seq<char>, u64)>, words: Seq<char>, ops: Seq<WordCodeOp>)
    requires
        forall|i: int| 0 <= i < ops.len() ==> op_words(#[trigger] ops[i]) != words,
    ensures
        after_ops(codes, ops).contains_key(words) ==> codes.contains_key(words) && after_ops(codes, ops)[words]
            == codes[words],
        codes.contains_key(words) && (forall|i: int| 0 <= i < ops.len() ==> (#[trigger] ops[i] matches WordCodeOp::Register(_, _, _, t) ==> code_live(codes[words].2, t)))
            ==> after_ops(codes, ops).contains_key(words),
    decreases ops.len(),
{
    if ops.len() > 0 {
        let rest = ops.drop_last();
        assert forall|i: int| 0 <= i < rest.len() implies op_words(#[trigger] rest[i]) != words by {
            assert(rest[i] == ops[i]);
        }
        lemma_other_ops(codes, words, rest);
        assert(op_words(ops[ops.len() - 1]) != words);
        if codes.contains_key(words) && (forall|i: int| 0 <= i < ops.len() ==> (#[trigger] ops[i] matches WordCodeOp::Register(_, _, _, t) ==> code_live(codes[words].2, t))) {
            assert forall|i: int| 0 <= i < rest.len() implies (#[trigger] rest[i] matches WordCodeOp::Register(_, _, _, t) ==> code_live(codes[words].2, t)) by {
                assert(rest[i] == ops[i]);
            }
            assert(ops.last() == ops[ops.len() - 1]);
        }
    }
}

/// A word code registered at `registered` is found by a lookup at `now`, less
/// than 5 minutes later, whatever registrations and lookups of other words came
/// in between (at times from `registered` to `now`).
pub proof fn law_word_code_lifetime_with_others(
    codes: Map<Seq<char>, (Seq<char>, Seq<char>, u64)>,
    words: Seq<char>,
    tg_hash: Seq<char>,
    join_code: Seq<char>,
    registered: u64,
    ops: Seq<WordCodeOp>,
    now: u64,
)
    requires
        forall|i: int| 0 <= i < ops.len() ==> op_words(#[trigger] ops[i]) != words,
        forall|i: int| 0 <= i < ops.len() ==> (#[trigger] ops[i] matches WordCodeOp::Register(_, _, _, t) ==> registered <= t <= now),
        registered <= now,
        now - registered < WORD_CODE_TTL_NANOS,
    ensures
        lookup_outcome(after_ops(after_register(codes, words, tg_hash, join_code, registered), ops), words, now)
            == Some((tg_hash, join_code)),
{
    let start = after_register(codes, words, tg_hash, join_code, registered);
    assert(start.contains_key(words) && start[words] == (tg_hash, join_code, registered));
    assert forall|i: int| 0 <= i < ops.len() implies (#[trigger] ops[i] matches WordCodeOp::Register(_, _, _, t) ==> code_live(start[words].2, t)) by {}
    lemma_other_ops(start, words, ops);
}

/// Once looked up, a word code stays gone whatever registrations and lookups of
/// other words follow: it is redeemed at most once per registration.
pub proof fn law_word_code_single_use_with_others(
    codes: Map<Seq<char>, (Seq<char>, Seq<char>, u64)>,
    words: Seq<char>,
    ops: Seq<WordCodeOp>,
    now: u64,
)
    requires
        forall|i: int| 0 <= i < ops.len() ==> op_words(#[trigger] ops[i]) != words,
    ensures
        !after_ops(after_lookup(codes, words), ops).contains_key(words),
        lookup_outcome(after_ops(after_lookup(codes, words), ops), words, now) is None,
{
    lemma_other_ops(after_lookup(codes, words), words, ops);
}

/// A word code looked up 5 minutes or more after its registration is not found,
/// whatever registrations and lookups of other words came in between, and the
/// lookup removes it.
pub proof fn law_word_code_expires_with_others(
    codes: Map<Seq<char>, (Seq<char>, Seq<char>, u64)>,
    words: Seq<char>,
    tg_hash: Seq<char>,
    join_code: Seq<char>,
    registered: u64,
    ops: Seq<WordCodeOp>,
    now: u64,
)
    requires
        forall|i: int| 0 <= i < ops.len() ==> op_words(#[trigger] ops[i]) != words,
        elapsed(registered, now) >= WORD_CODE_TTL_NANOS,
    ensures
        lookup_outcome(after_ops(after_register(codes, words, tg_hash, join_code, registered), ops), words, now) is None,
        !after_lookup(after_ops(after_register(codes, words, tg_hash, join_code, registered), ops), words).contains_key(words),
{
    let start = after_register(codes, words, tg_hash, join_code, registered);
    lemma_other_ops(start, words, ops);
}

/// A looked-up word code is gone: looking it up again finds nothing.
pub proof fn law_word_code_single_use(codes: Map<Seq<char>, (Seq<char>, Seq<char>, u64)>, words: Seq<char>, now: u64)
    ensures
        lookup_outcome(after_lookup(codes, words), words, now) is None,
{
}

/// A word code registered at `registered` is found by a lookup at `now` while
/// less than 5 minutes have passed, and not after.
pub proof fn law_word_code_lifetime(
    codes: Map<Seq<char>, (Seq<char>, Seq<char>, u64)>,
    words: Seq<char>,
    tg_hash: Seq<char>,
    join_code: Seq<char>,
    registered: u64,
    now: u64,
)
    ensures
        lookup_outcome(after_register(codes, words, tg_hash, join_code, registered), words, now) == if elapsed(
            registered,
            now,
        ) < WORD_CODE_TTL_NANOS {
            Some((tg_hash, join_code))
        } else {
            None
        },
{
}

/// A rate-limit window of one address.
struct RateEntry {
    count: u32,
    window_start: u64,
}

/// Temporary word code registration (5-minute lifetime, single use).
pub struct WordCodeEntry {
    pub tg_hash: String,
    pub join_code: String,
    /// Monotonic clock reading (nanoseconds) at registration.
    pub created_at: u64,
}

/// The relay's state: the trust groups with their connections and buffers, the
/// connection-id counter, the limits, the counters, the per-address rate limits
/// and the word codes.
pub struct RelayState {
    groups: HashMap<TrustGroupHash, TrustGroupState>,
    next_conn_id: ConnId,
    buffer_size: usize,
    max_connections: usize,
    /// Total frames routed since startup (wrapping).
    frames_routed: u64,
    /// Total connections accepted since startup (wrapping).
    connections_total: u64,
    rate_limits: HashMap<u128, RateEntry>,
    word_codes: Vec<(String, WordCodeEntry)>,
}

impl RelayState {
    /// Every trust group of a well-formed relay has a connection: the last one to
    /// leave removes the group.
    pub proof fn law_groups_never_empty(&self)
        requires
            self.wf(),
        ensures
            forall|k: TrustGroupHash| #[trigger] self.groups().contains_key(k) ==> self.groups()[k].connections@.len() > 0,
    {
        assert forall|k: TrustGroupHash| #[trigger] self.groups().contains_key(k) implies self.groups()[k].connections@.len() > 0 by {
            assert(group_ok(self.groups@[k]));
        }
    }

    /// The id the next connection gets is not registered yet.
    pub proof fn lemma_next_id_fresh(&self)
        requires
            self.wf(),
            self.next_id() != 0,
        ensures
            !registered(self.groups(), self.next_id()),
    {
        if registered(self.groups(), self.next_id()) {
            let k = choose|k: TrustGroupHash| #[trigger] self.groups@.contains_key(k) && self.groups@[k].connections@.contains_key(self.next_conn_id);
            assert(self.groups@[k].connections@.contains_key(self.next_conn_id));
        }
    }

    /// In a well-formed relay a connection is registered in one group only, so
    /// frames routed in any other group never reach it.
    pub proof fn law_connection_in_one_group(&self, g: TrustGroupHash, h: TrustGroupHash, c: ConnId)
        requires
            self.wf(),
            g != h,
            self.groups().contains_key(h),
            self.groups()[h].connections@.contains_key(c),
        ensures
            !(self.groups().contains_key(g) && self.groups()[g].connections@.contains_key(c)),
    {
        if self.groups().contains_key(g) && self.groups()[g].connections@.contains_key(c) {
            assert(self.groups@[g].connections@.contains_key(c) && self.groups@[h].connections@.contains_key(c));
        }
    }

    /// The trust groups, by hash.
    pub closed spec fn groups(&self) -> Map<TrustGroupHash, TrustGroupState> {
        self.groups@
    }

    /// The answer to a catch-up request for frames newer than `since` in group
    /// `tg`: the `CatchupIncomplete` notice, if any, and the frames.
    pub open spec fn spec_catchup(&self, tg: TrustGroupHash, since: u64) -> (Option<ServerMessage>, Seq<(u64, Seq<u8>)>) {
        if self.groups().contains_key(tg) {
            let b = self.groups()[tg].buffer;
            (
                if since < b.spec_oldest_timestamp() && b@.len() > 0 {
                    Some(ServerMessage::CatchupIncomplete { oldest: b.spec_oldest_timestamp() })
                } else {
                    None
                },
                b@.filter(newer_than(since)),
            )
        } else {
            (None, Seq::empty())
        }
    }

    /// A catch-up answers with the frames of the group's buffer stamped after
    /// `since`, in buffer order (oldest first, none left out, none reordered),
    /// and with a `CatchupIncomplete` notice naming the oldest buffered timestamp
    /// exactly when the buffer is not empty and its oldest frame is stamped after
    /// `since`; a group that does not exist gets neither.
    pub proof fn law_catchup(&self, tg: TrustGroupHash, since: u64)
        ensures
            self.spec_catchup(tg, since).1 == if self.groups().contains_key(tg) {
                self.groups()[tg].buffer@.filter(|f: (u64, Seq<u8>)| f.0 > since)
            } else {
                Seq::<(u64, Seq<u8>)>::empty()
            },
            self.spec_catchup(tg, since).0 == if self.groups().contains_key(tg) && self.groups()[tg].buffer@.len() > 0
                && since < self.groups()[tg].buffer@[0].0 {
                Some(ServerMessage::CatchupIncomplete { oldest: self.groups()[tg].buffer@[0].0 })
            } else {
                None
            },
    {
        assert(newer_than(since) =~= (|f: (u64, Seq<u8>)| f.0 > since));
    }

    /// The capacity that new groups' buffers get.
    pub closed spec fn spec_buffer_size(&self) -> usize {
        self.buffer_size
    }

    /// The most connections the relay admits.
    pub closed spec fn spec_max_connections(&self) -> usize {
        self.max_connections
    }

    /// Frames routed since startup (wrapping).
    pub closed spec fn spec_frames_routed(&self) -> u64 {
        self.frames_routed
    }

    /// Connections accepted since startup (wrapping).
    pub closed spec fn spec_connections_total(&self) -> u64 {
        self.connections_total
    }

    /// The id the next connection gets.
    pub closed spec fn next_id(&self) -> ConnId {
        self.next_conn_id
    }

    /// Per address: the attempts counted in the current window and the window's start.
    pub closed spec fn rate_limits(&self) -> Map<u128, (u32, u64)> {
        self.rate_limits@.map_values(|e: RateEntry| (e.count, e.window_start))
    }

    /// The registered word codes: words to (trust group hash, join code, registration time).
    pub closed spec fn word_codes(&self) -> Map<Seq<char>, (Seq<char>, Seq<char>, u64)> {
        codes_map(self.word_codes@)
    }

    /// Well-formedness: every group has a connection, a well-formed buffer, and its
    /// connections keyed by their ids; each connection is in one group only, with
    /// an id below the next one to be handed out (until the counter wraps); no
    /// word code is registered twice.
    pub closed spec fn wf(&self) -> bool {
        &&& groups_wf(self.groups@)
        &&& ids_below(self.groups@, self.next_conn_id)
        &&& forall|i: int, j: int| 0 <= i < j < self.word_codes@.len()
            ==> self.word_codes@[i].0@ != self.word_codes@[j].0@
    }

    /// An empty relay: no groups, ids from 1, counters at zero.
    pub fn new(buffer_size: usize, max_connections: usize) -> (s: Self)
        ensures
            s.wf(),
            s.groups() == Map::<TrustGroupHash, TrustGroupState>::empty(),
            s.next_id() == 1,
            s.spec_buffer_size() == buffer_size,
            s.spec_max_connections() == max_connections,
            s.spec_frames_routed() == 0,
            s.spec_connections_total() == 0,
            s.rate_limits() == Map::<u128, (u32, u64)>::empty(),
            s.word_codes() == Map::<Seq<char>, (Seq<char>, Seq<char>, u64)>::empty(),
    {
        let s = RelayState {
            groups: HashMap::new(),
            next_conn_id: 1,
            buffer_size,
            max_connections,
            frames_routed: 0,
            connections_total: 0,
            rate_limits: HashMap::new(),
            word_codes: Vec::new(),
        };
        assert(s.rate_limits() =~= Map::<u128, (u32, u64)>::empty());
        assert(s.word_codes() =~= Map::<Seq<char>, (Seq<char>, Seq<char>, u64)>::empty());
        s
    }

    /// The capacity that new groups' buffers get.
    pub fn buffer_size(&self) -> (n: usize)
        ensures
            n == self.spec_buffer_size(),
    {
        self.buffer_size
    }

    /// The most connections the relay admits.
    pub fn max_connections(&self) -> (n: usize)
        ensures
            n == self.spec_max_connections(),
    {
        self.max_connections
    }

    /// Frames routed since startup (wrapping).
    pub fn frames_routed(&self) -> (n: u64)
        ensures
            n == self.spec_frames_routed(),
    {
        self.frames_routed
    }

    /// Connections accepted since startup (wrapping).
    pub fn connections_total(&self) -> (n: u64)
        ensures
            n == self.spec_connections_total(),
    {
        self.connections_total
    }

    /// The id the next connection gets.
    pub fn peek_conn_id(&self) -> (id: ConnId)
        ensures
            id == self.next_id(),
    {
        self.next_conn_id
    }

    /// Counts an accepted connection (one whose WELCOME has gone out) in
    /// `connections_total`, which wraps.
    pub fn count_accepted(&mut self)
        ensures
            final(self).spec_connections_total() == old(self).spec_connections_total().wrapping_add(1),
            final(self).groups() == old(self).groups(),
            final(self).next_id() == old(self).next_id(),
            final(self).rate_limits() == old(self).rate_limits(),
            final(self).word_codes() == old(self).word_codes(),
            old(self).wf() ==> final(self).wf(),
            final(self).spec_buffer_size() == old(self).spec_buffer_size(),
            final(self).spec_max_connections() == old(self).spec_max_connections(),
            final(self).spec_frames_routed() == old(self).spec_frames_routed(),
    {
        self.connections_total = self.connections_total.wrapping_add(1);
        assert(self.groups@ == old(self).groups@ && self.word_codes@ == old(self).word_codes@);
    }

    /// Hands out the next connection id; the counter wraps.
    pub fn next_conn_id(&mut self) -> (id: ConnId)
        ensures
            id == old(self).next_id(),
            final(self).next_id() == old(self).next_id().wrapping_add(1),
            final(self).groups() == old(self).groups(),
            final(self).rate_limits() == old(self).rate_limits(),
            final(self).word_codes() == old(self).word_codes(),
            old(self).wf() && old(self).next_id() != 0 ==> final(self).wf(),
            final(self).spec_buffer_size() == old(self).spec_buffer_size(),
            final(self).spec_max_connections() == old(self).spec_max_connections(),
            final(self).spec_frames_routed() == old(self).spec_frames_routed(),
            final(self).spec_connections_total() == old(self).spec_connections_total(),
    {
        let id = self.next_conn_id;
        self.next_conn_id = self.next_conn_id.wrapping_add(1);
        assert(self.groups@ == old(self).groups@ && self.word_codes@ == old(self).word_codes@);
        proof {
            if old(self).wf() && old(self).next_conn_id != 0 && self.next_conn_id != 0 {
                assert forall|k: TrustGroupHash, c: ConnId|
                    #[trigger] self.groups@.contains_key(k) && #[trigger] self.groups@[k].connections@.contains_key(c)
                    implies c < self.next_conn_id by {}
            }
        }
        id
    }

    /// Finds the trust group a HELLO names (see `spec_resolve`).
    pub fn resolve_trust_group(&self, trust_group: &str) -> (r: Result<TrustGroupHash, HandshakeError>)
        requires
            trust_group.spec_bytes().len() == 16 ==> !hex_decode_panics(trust_group.spec_bytes()),
        ensures
            r == spec_resolve(self.groups().dom(), trust_group.spec_bytes()),
    {
        let tg = trust_group.as_bytes();
        let len = tg.len();
        if len == 16 {
            match hex_decode(trust_group) {
                Some(b) => if b.len() == 8 {
                    Ok(hash_from_bytes(b.as_slice()))
                } else {
                    Err(HandshakeError::InvalidTrustGroup)
                },
                None => Err(HandshakeError::InvalidTrustGroup),
            }
        } else if len >= 3 && len <= 6 {
            let mut matches: Vec<TrustGroupHash> = Vec::new();
            let ghost m = &self.groups;
            let ghost keys = spec_keys_iter(m).remaining().map_values(|r: &TrustGroupHash| *r);
            proof {
                assert(spec_keys_iter(m).remaining().unref() =~= keys);
            }
            for k in it: self.groups.keys()
                invariant
                    it.seq() == spec_keys_iter(m).remaining(),
                    keys == it.seq().map_values(|r: &TrustGroupHash| *r),
                    keys.to_set() == self.groups@.dom(),
                    keys.no_duplicates(),
                    tg@ == trust_group.spec_bytes(),
                    matches@.no_duplicates(),
                    forall|j: int| 0 <= j < matches@.len() ==> self.groups@.dom().contains(#[trigger] matches@[j])
                        && hash_has_prefix(matches@[j], tg@),
                    forall|j: int| 0 <= j < matches@.len() ==> #[trigger] keys.take(it.index()).contains(matches@[j]),
                    forall|i: int| 0 <= i < it.index() && hash_has_prefix(#[trigger] keys[i], tg@) ==> matches@.contains(keys[i]),
            {
                let ghost i = it.index();
                let ghost before = matches@;
                proof {
                    assert(keys.to_set().contains(keys[i]));
                }
                let bytes = hash_to_bytes(*k);
                if hex_has_prefix(bytes.as_slice(), tg) {
                    proof {
                        assert(!before.contains(*k)) by {
                            if before.contains(*k) {
                                let j = choose|j: int| 0 <= j < before.len() && before[j] == *k;
                                assert(keys.take(i).contains(before[j]));
                                let x = choose|x: int| 0 <= x < i && keys.take(i)[x] == before[j];
                                assert(keys[x] == keys[i]);
                            }
                        }
                    }
                    matches.push(*k);
                }
                proof {
                    assert forall|j: int| 0 <= j < matches@.len() implies #[trigger] keys.take(i + 1).contains(matches@[j]) by {
                        if j < before.len() {
                            assert(keys.take(i).contains(before[j]));
                            let x = choose|x: int| 0 <= x < i && keys.take(i)[x] == before[j];
                            assert(keys.take(i + 1)[x] == before[j]);
                        } else {
                            assert(keys.take(i + 1)[i] == keys[i]);
                        }
                    }
                    assert forall|x: int| 0 <= x < i + 1 && hash_has_prefix(#[trigger] keys[x], tg@) implies matches@.contains(keys[x]) by {
                        if x < i {
                            assert(before.contains(keys[x]));
                            let j = choose|j: int| 0 <= j < before.len() && before[j] == keys[x];
                            assert(matches@[j] == keys[x]);
                        } else {
                            assert(matches@[matches@.len() - 1] == keys[x]);
                        }
                    }
                }
            }
            proof {
                assert(keys.take(keys.len() as int) =~= keys);
                assert forall|k: TrustGroupHash| #[trigger] self.groups@.dom().contains(k) && hash_has_prefix(k, tg@)
                    implies matches@.contains(k) by {
                    assert(keys.to_set().contains(k));
                    let x = choose|x: int| 0 <= x < keys.len() && keys[x] == k;
                }
            }
            if matches.len() == 0 {
                proof {
                    if exists|k: TrustGroupHash| #[trigger] self.groups@.dom().contains(k) && hash_has_prefix(k, tg@) {
                        let k = choose|k: TrustGroupHash| #[trigger] self.groups@.dom().contains(k) && hash_has_prefix(k, tg@);
                        assert(matches@.contains(k));
                    }
                }
                Err(HandshakeError::NoMatchingTrustGroup)
            } else if matches.len() == 1 {
                proof {
                    let k0 = matches@[0];
                    assert(self.groups@.dom().contains(k0) && hash_has_prefix(k0, tg@));
                    if exists|k1: TrustGroupHash, k2: TrustGroupHash|
                        k1 != k2 && #[trigger] self.groups@.dom().contains(k1) && #[trigger] self.groups@.dom().contains(k2)
                            && hash_has_prefix(k1, tg@) && hash_has_prefix(k2, tg@) {
                        let (k1, k2) = choose|k1: TrustGroupHash, k2: TrustGroupHash|
                            k1 != k2 && #[trigger] self.groups@.dom().contains(k1) && #[trigger] self.groups@.dom().contains(k2)
                                && hash_has_prefix(k1, tg@) && hash_has_prefix(k2, tg@);
                        assert(matches@.contains(k1));
                        assert(matches@.contains(k2));
                    }
                    let c = choose|k: TrustGroupHash| #[trigger] self.groups@.dom().contains(k) && hash_has_prefix(k, tg@);
                    assert(matches@.contains(c));
                }
                Ok(matches[0])
            } else {
                proof {
                    let k1 = matches@[0];
                    let k2 = matches@[1];
                    assert(self.groups@.dom().contains(k1) && self.groups@.dom().contains(k2));
                    assert(hash_has_prefix(k1, tg@) && hash_has_prefix(k2, tg@));
                }
                Err(HandshakeError::AmbiguousTrustGroupPrefix)
            }
        } else {
            Err(HandshakeError::InvalidTrustGroupLength)
        }
    }

    /// Total connections across all trust groups, or `None` where the sum does
    /// not fit in a `usize`.
    pub fn checked_total_connections(&self) -> (r: Option<usize>)
        ensures
            match r {
                Some(n) => n == total_peers(self.groups()),
                None => total_peers(self.groups()) > usize::MAX,
            },
    {
        let mut n: usize = 0;
        let ghost m = &self.groups;
        let ghost keys = spec_keys_iter(m).remaining().map_values(|r: &TrustGroupHash| *r);
        proof {
            let ks = spec_keys_iter(m).remaining();
            assert(ks.unref() =~= keys);
            lemma_listed_peers_is_total(self.groups@, keys);
            assert(keys.to_set() == self.groups@.dom());
        }
        for k in it: self.groups.keys()
            invariant
                it.seq() == spec_keys_iter(m).remaining(),
                keys == it.seq().map_values(|r: &TrustGroupHash| *r),
                keys.to_set() == self.groups@.dom(),
                keys.to_set().fold(0int, peer_term(self.groups@)) == listed_peers(self.groups@, keys),
                n == listed_peers(self.groups@, keys.take(it.index())),
        {
            let ghost i = it.index();
            proof {
                lemma_listed_peers_prefix(self.groups@, keys, i + 1);
                assert(keys.take(i + 1).drop_last() =~= keys.take(i));
                assert(keys.to_set().contains(keys[i]));
            }
            let g = self.groups.get(k).unwrap();
            match n.checked_add(g.connections.len()) {
                Some(sum) => n = sum,
                None => return None,
            }
        }
        proof {
            assert(keys.take(keys.len() as int) =~= keys);
        }
        Some(n)
    }

    /// Total connections across all trust groups.
    pub fn total_connections(&self) -> (n: usize)
        requires
            total_peers(self.groups()) <= usize::MAX,
        ensures
            n == total_peers(self.groups()),
    {
        self.checked_total_connections().unwrap()
    }

    /// Registers connection `conn` in group `tg`, creating the group (with an empty
    /// buffer of `buffer_size` frames) if it has none.
    pub fn register_connection(&mut self, tg: TrustGroupHash, conn: Connection)
        requires
            old(self).wf(),
            !registered(old(self).groups(), conn.conn_id),
            old(self).next_id() == 0 || conn.conn_id < old(self).next_id(),
        ensures
            final(self).wf(),
            joined(old(self).groups(), final(self).groups(), tg, conn, old(self).spec_buffer_size()),
            total_peers(final(self).groups()) == total_peers(old(self).groups()) + 1,
            final(self).spec_connections_total() == old(self).spec_connections_total(),
            final(self).next_id() == old(self).next_id(),
            final(self).rate_limits() == old(self).rate_limits(),
            final(self).word_codes() == old(self).word_codes(),
            final(self).spec_buffer_size() == old(self).spec_buffer_size(),
            final(self).spec_max_connections() == old(self).spec_max_connections(),
            final(self).spec_frames_routed() == old(self).spec_frames_routed(),
    {
        let mut g = match self.groups.remove(&tg) {
            Some(g) => g,
            None => TrustGroupState::new(self.buffer_size),
        };
        let ghost g0 = g;
        let id = conn.conn_id;
        g.connections.insert(id, conn);
        self.groups.insert(tg, g);
        proof {
            let before = old(self).groups@;
            let after = self.groups@;
            assert(after.dom() =~= before.dom().insert(tg));
            if before.contains_key(tg) {
                assert(group_ok(before[tg]));
            }
            assert(!before.contains_key(tg) ==> g0.connections@ =~= Map::<ConnId, Connection>::empty());
            assert(after[tg].connections@.contains_key(id));
            assert(after[tg].connections@.len() > 0) by {
                vstd::set_lib::lemma_set_empty_equivalency_len(after[tg].connections@.dom());
            }
            assert forall|c: ConnId| #[trigger] after[tg].connections@.contains_key(c)
                implies after[tg].connections@[c].conn_id == c by {
                if c != id {
                    assert(before.contains_key(tg) && before[tg].connections@.contains_key(c));
                }
            }
            assert forall|c: ConnId| #[trigger] after[tg].connections@.contains_key(c)
                implies forall|k: TrustGroupHash| #[trigger] before.contains_key(k) && k != tg
                ==> !before[k].connections@.contains_key(c) by {
                assert forall|k: TrustGroupHash| #[trigger] before.contains_key(k) && k != tg
                    implies !before[k].connections@.contains_key(c) by {
                    if c == id {
                        if before[k].connections@.contains_key(c) {
                            assert(registered(before, id));
                        }
                    } else {
                        assert(before[tg].connections@.contains_key(c));
                    }
                }
            }
            lemma_groups_update(before, after, tg);
            assert(ids_below(after, self.next_conn_id)) by {
                assert forall|k: TrustGroupHash, c: ConnId|
                    #[trigger] after.contains_key(k) && #[trigger] after[k].connections@.contains_key(c)
                    && self.next_conn_id != 0 implies c < self.next_conn_id by {
                    if k != tg || c != id {
                        if k == tg {
                            assert(before[tg].connections@.contains_key(c));
                        }
                    }
                }
            }
            lemma_total_split(after, tg);
            if before.contains_key(tg) {
                lemma_total_split(before, tg);
                assert(after.remove(tg) =~= before.remove(tg));
                assert(after[tg].connections@ == before[tg].connections@.insert(id, conn));
                assert(!before[tg].connections@.contains_key(id)) by {
                    if before[tg].connections@.contains_key(id) {
                        assert(registered(before, id));
                    }
                }
            } else {
                assert(after.remove(tg) =~= before);
                assert(after[tg].connections@ =~= Map::<ConnId, Connection>::empty().insert(id, conn));
                assert(after[tg].connections@.dom() =~= Set::<ConnId>::empty().insert(id));
            }
            assert(self.word_codes@ == old(self).word_codes@);
            assert(self.rate_limits() =~= old(self).rate_limits());
        }
    }

    /// Routes a frame from connection `sender` of group `tg`, received at unix time
    /// `now`: buffers it, counts it in `frames_routed` (wrapping) and returns the
    /// connections it goes to (every other connection of the group). A group that
    /// does not exist is left alone and the frame goes nowhere.
    pub fn route_frame(&mut self, tg: TrustGroupHash, sender: ConnId, data: Vec<u8>, now: u64) -> (recipients: Vec<ConnId>)
        requires
            old(self).wf(),
        ensures
            final(self).wf(),
            final(self).groups().dom() == old(self).groups().dom(),
            forall|k: TrustGroupHash| k != tg && #[trigger] old(self).groups().contains_key(k)
                ==> final(self).groups()[k] == old(self).groups()[k],
            old(self).groups().contains_key(tg) ==> {
                let g = old(self).groups()[tg];
                &&& final(self).groups()[tg].connections == g.connections
                &&& final(self).groups()[tg].buffer@ == pushed(g.buffer@, g.buffer.capacity(), (now, data@))
                &&& final(self).groups()[tg].buffer.capacity() == g.buffer.capacity()
                &&& recipients@.no_duplicates()
                &&& recipients@.to_set() == g.connections@.dom().remove(sender)
                &&& final(self).spec_frames_routed() == old(self).spec_frames_routed().wrapping_add(1)
            },
            forall|h: TrustGroupHash, c: ConnId|
                h != tg && #[trigger] old(self).groups().contains_key(h)
                    && #[trigger] old(self).groups()[h].connections@.contains_key(c) ==> !recipients@.contains(c),
            total_peers(final(self).groups()) == total_peers(old(self).groups()),
            !old(self).groups().contains_key(tg) ==> {
                &&& recipients@.len() == 0
                &&& final(self).groups() == old(self).groups()
                &&& final(self).spec_frames_routed() == old(self).spec_frames_routed()
            },
            final(self).next_id() == old(self).next_id(),
            final(self).rate_limits() == old(self).rate_limits(),
            final(self).word_codes() == old(self).word_codes(),
            final(self).spec_buffer_size() == old(self).spec_buffer_size(),
            final(self).spec_max_connections() == old(self).spec_max_connections(),
            final(self).spec_connections_total() == old(self).spec_connections_total(),
    {
        match self.groups.remove(&tg) {
            None => {
                proof {
                    assert(self.groups@ =~= old(self).groups@);
                    assert(self.rate_limits() =~= old(self).rate_limits());
                }
                Vec::new()
            },
            Some(mut g) => {
                assert(old(self).groups@.contains_key(tg));
                g.buffer.push(data, now);
                let recipients = g.broadcast(sender);
                self.groups.insert(tg, g);
                self.frames_routed = self.frames_routed.wrapping_add(1);
                proof {
                    let before = old(self).groups@;
                    let after = self.groups@;
                    assert(after.dom() =~= before.dom());
                    assert(group_ok(before[tg]));
                    assert forall|c: ConnId| #[trigger] after[tg].connections@.contains_key(c)
                        implies forall|k: TrustGroupHash| #[trigger] before.contains_key(k) && k != tg
                        ==> !before[k].connections@.contains_key(c) by {
                        assert(before[tg].connections@.contains_key(c));
                    }
                    lemma_groups_update(before, after, tg);
                    lemma_total_split(before, tg);
                    lemma_total_split(after, tg);
                    assert(after.remove(tg) =~= before.remove(tg));
                    assert forall|h: TrustGroupHash, c: ConnId|
                        h != tg && #[trigger] before.contains_key(h) && #[trigger] before[h].connections@.contains_key(c)
                        implies !recipients@.contains(c) by {
                        if recipients@.contains(c) {
                            assert(recipients@.to_set().contains(c));
                            assert(before[tg].connections@.contains_key(c));
                        }
                    }
                    assert(self.word_codes@ == old(self).word_codes@);
                    assert(self.rate_limits() =~= old(self).rate_limits());
                }
                recipients
            },
        }
    }

    /// Answers a catch-up request of a connection in group `tg` for the frames
    /// newer than `since`: a `CatchupIncomplete` notice when the buffer is not
    /// empty and already dropped frames from after `since`, then the buffered
    /// frames newer than `since`, oldest first. Nothing for a group that does not
    /// exist.
    pub fn catchup(&self, tg: TrustGroupHash, since: u64) -> (r: (Option<ServerMessage>, Vec<&BufferedFrame>))
        ensures
            r.0 == self.spec_catchup(tg, since).0,
            r.1@.map_values(|f: &BufferedFrame| f@) == self.spec_catchup(tg, since).1,
    {
        match self.groups.get(&tg) {
            None => (None, Vec::new()),
            Some(g) => {
                let oldest = g.buffer.oldest_timestamp();
                let notice = if since < oldest && g.buffer.len() > 0 {
                    Some(ServerMessage::CatchupIncomplete { oldest })
                } else {
                    None
                };
                (notice, g.buffer.since(since))
            },
        }
    }

    /// Removes connection `conn_id` from group `tg`, and the group itself once it
    /// has no connections left. Returns the number of peers left in the group, or
    /// `None` (changing nothing) when there is no such group.
    pub fn leave(&mut self, tg: TrustGroupHash, conn_id: ConnId) -> (left: Option<usize>)
        requires
            old(self).wf(),
        ensures
            final(self).wf(),
            departed(old(self).groups(), final(self).groups(), tg, conn_id),
            total_peers(final(self).groups()) <= total_peers(old(self).groups()),
            old(self).groups().contains_key(tg) && old(self).groups()[tg].connections@.contains_key(conn_id)
                ==> !registered(final(self).groups(), conn_id),
            left == if old(self).groups().contains_key(tg) {
                Some(old(self).groups()[tg].connections@.remove(conn_id).len() as usize)
            } else {
                None
            },
            final(self).next_id() == old(self).next_id(),
            final(self).rate_limits() == old(self).rate_limits(),
            final(self).word_codes() == old(self).word_codes(),
            final(self).spec_buffer_size() == old(self).spec_buffer_size(),
            final(self).spec_max_connections() == old(self).spec_max_connections(),
            final(self).spec_frames_routed() == old(self).spec_frames_routed(),
            final(self).spec_connections_total() == old(self).spec_connections_total(),
    {
        match self.groups.remove(&tg) {
            None => {
                proof {
                    assert(self.groups@ =~= old(self).groups@);
                    assert(self.rate_limits() =~= old(self).rate_limits());
                }
                None
            },
            Some(mut g) => {
                assert(old(self).groups@.contains_key(tg));
                let _ = g.connections.remove(&conn_id);
                let n = g.connections.len();
                if n > 0 {
                    self.groups.insert(tg, g);
                    proof {
                        assert(self.groups@.dom() =~= old(self).groups@.dom());
                    }
                } else {
                    proof {
                        assert(self.groups@ =~= old(self).groups@.remove(tg));
                    }
                }
                proof {
                    let before = old(self).groups@;
                    let after = self.groups@;
                    assert(group_ok(before[tg]));
                    if after.contains_key(tg) {
                        assert forall|c: ConnId| #[trigger] after[tg].connections@.contains_key(c)
                            implies after[tg].connections@[c].conn_id == c by {
                            assert(before[tg].connections@.contains_key(c));
                        }
                        assert forall|c: ConnId| #[trigger] after[tg].connections@.contains_key(c)
                            implies forall|k: TrustGroupHash| #[trigger] before.contains_key(k) && k != tg
                            ==> !before[k].connections@.contains_key(c) by {
                            assert(before[tg].connections@.contains_key(c));
                        }
                    }
                    lemma_groups_update(before, after, tg);
                    assert forall|k: TrustGroupHash, c: ConnId|
                        #[trigger] after.contains_key(k) && #[trigger] after[k].connections@.contains_key(c)
                        && self.next_conn_id != 0 implies c < self.next_conn_id by {
                        assert(before.contains_key(k));
                        assert(before[k].connections@.contains_key(c));
                    }
                    if before[tg].connections@.contains_key(conn_id) {
                        assert forall|k: TrustGroupHash| #[trigger] after.contains_key(k)
                            implies !after[k].connections@.contains_key(conn_id) by {
                            if k != tg && after[k].connections@.contains_key(conn_id) {
                                assert(before[k].connections@.contains_key(conn_id));
                            }
                        }
                    }
                    lemma_total_split(before, tg);
                    if after.contains_key(tg) {
                        lemma_total_split(after, tg);
                        assert(after.remove(tg) =~= before.remove(tg));
                    }
                    assert(self.word_codes@ == old(self).word_codes@);
                    assert(self.rate_limits() =~= old(self).rate_limits());
                }
                Some(n)
            },
        }
    }

    /// Counts a connection attempt from address `ip` at monotonic time `now`
    /// (nanoseconds). Returns whether the attempt is within the limit of 5 per
    /// 60-second window.
    pub fn check_rate_limit(&mut self, ip: u128, now: u64) -> (allowed: bool)
        requires
            old(self).wf(),
            rate_window(old(self).rate_limits(), ip, now).0 < u32::MAX,
        ensures
            final(self).wf(),
            final(self).rate_limits() == rate_step(old(self).rate_limits(), ip, now),
            allowed == (rate_window(old(self).rate_limits(), ip, now).0 + 1 <= RATE_LIMIT_MAX),
            final(self).groups() == old(self).groups(),
            final(self).next_id() == old(self).next_id(),
            final(self).word_codes() == old(self).word_codes(),
            final(self).spec_buffer_size() == old(self).spec_buffer_size(),
            final(self).spec_max_connections() == old(self).spec_max_connections(),
            final(self).spec_frames_routed() == old(self).spec_frames_routed(),
            final(self).spec_connections_total() == old(self).spec_connections_total(),
    {
        let mut entry = match self.rate_limits.remove(&ip) {
            Some(e) => e,
            None => RateEntry { count: 0, window_start: now },
        };
        let age = if now >= entry.window_start { now - entry.window_start } else { 0 };
        if age >= RATE_LIMIT_WINDOW_NANOS {
            entry.count = 0;
            entry.window_start = now;
        }
        entry.count = entry.count + 1;
        let allowed = entry.count <= RATE_LIMIT_MAX;
        self.rate_limits.insert(ip, entry);
        proof {
            assert(self.rate_limits() =~= old(self).rate_limits().insert(ip, (entry.count, entry.window_start)));
            assert(self.groups@ == old(self).groups@ && self.word_codes@ == old(self).word_codes@);
        }
        allowed
    }

    /// Registers a word code at monotonic time `now` (nanoseconds), first dropping
    /// the codes that are no longer valid; a code registered again is replaced.
    pub fn register_word_code(&mut self, words: String, tg_hash: String, join_code: String, now: u64)
        requires
            old(self).wf(),
        ensures
            final(self).wf(),
            final(self).word_codes() == after_register(old(self).word_codes(), words@, tg_hash@, join_code@, now),
            final(self).groups() == old(self).groups(),
            final(self).next_id() == old(self).next_id(),
            final(self).rate_limits() == old(self).rate_limits(),
            final(self).spec_buffer_size() == old(self).spec_buffer_size(),
            final(self).spec_max_connections() == old(self).spec_max_connections(),
            final(self).spec_frames_routed() == old(self).spec_frames_routed(),
            final(self).spec_connections_total() == old(self).spec_connections_total(),
    {
        let ghost old_codes = self.word_codes@;
        let mut codes: Vec<(String, WordCodeEntry)> = Vec::new();
        std::mem::swap(&mut codes, &mut self.word_codes);
        let mut kept: Vec<(String, WordCodeEntry)> = Vec::new();
        let ghost mut src: Seq<int> = Seq::empty();
        let n = codes.len();
        // Keep the valid codes, and drop any earlier registration of `words`.
        let mut i: usize = 0;
        while i < n
            invariant
                n == codes@.len(),
                codes@ == old_codes,
                i <= n,
                src.len() == kept@.len(),
                forall|a: int| #![trigger src[a]] 0 <= a < src.len() ==> 0 <= src[a] < i && old_codes[src[a]] == kept@[a]
                    && code_live(old_codes[src[a]].1.created_at, now) && old_codes[src[a]].0@ != words@,
                forall|a: int, b: int| 0 <= a < b < src.len() ==> src[a] < src[b],
                forall|j: int| #![trigger old_codes[j]] 0 <= j < i && code_live(old_codes[j].1.created_at, now)
                    && old_codes[j].0@ != words@ ==> exists|a: int| 0 <= a < src.len() && #[trigger] src[a] == j,
            decreases n - i,
        {
            let e = &codes[i];
            let age = if now >= e.1.created_at { now - e.1.created_at } else { 0 };
            let same = e.0 == words;
            if age < WORD_CODE_TTL_NANOS && !same {
                let copy = (e.0.clone(), WordCodeEntry {
                    tg_hash: e.1.tg_hash.clone(),
                    join_code: e.1.join_code.clone(),
                    created_at: e.1.created_at,
                });
                let ghost src0 = src;
                kept.push(copy);
                proof {
                    src = src.push(i as int);
                    assert(kept@[kept@.len() - 1] == old_codes[i as int]);
                    assert forall|j: int| #![trigger old_codes[j]] 0 <= j < i + 1 && code_live(old_codes[j].1.created_at, now)
                        && old_codes[j].0@ != words@ implies exists|a: int| 0 <= a < src.len() && #[trigger] src[a] == j by {
                        if j < i {
                            let a = choose|a: int| 0 <= a < src0.len() && #[trigger] src0[a] == j;
                            assert(src[a] == j);
                        } else {
                            assert(src[src.len() - 1] == j);
                        }
                    }
                }
            }
            i = i + 1;
        }
        let ghost w = words@;
        proof {
            assert forall|a: int| 0 <= a < kept@.len() implies kept@[a].0@ != w by {
                assert(old_codes[src[a]] == kept@[a]);
            }
        }
        let entry = (words, WordCodeEntry { tg_hash, join_code, created_at: now });
        let ghost kept0 = kept@;
        kept.push(entry);
        proof {
            lemma_register_codes(old_codes, kept0, src, kept@, now);
        }
        self.word_codes = kept;
    }

    /// Looks up and consumes the word code `words` at monotonic time `now`
    /// (nanoseconds): the code is removed whether or not it is still valid, and
    /// its trust group hash and join code come back only if it is.
    pub fn lookup_word_code(&mut self, words: &str, now: u64) -> (r: Option<(String, String)>)
        requires
            old(self).wf(),
        ensures
            final(self).wf(),
            final(self).word_codes() == after_lookup(old(self).word_codes(), words@),
            match r {
                Some((tg_hash, join_code)) => lookup_outcome(old(self).word_codes(), words@, now) == Some((tg_hash@, join_code@)),
                None => lookup_outcome(old(self).word_codes(), words@, now) is None,
            },
            final(self).groups() == old(self).groups(),
            final(self).next_id() == old(self).next_id(),
            final(self).rate_limits() == old(self).rate_limits(),
            final(self).spec_buffer_size() == old(self).spec_buffer_size(),
            final(self).spec_max_connections() == old(self).spec_max_connections(),
            final(self).spec_frames_routed() == old(self).spec_frames_routed(),
            final(self).spec_connections_total() == old(self).spec_connections_total(),
    {
        let key = words.to_owned();
        let n = self.word_codes.len();
        let ghost codes = self.word_codes@;
        let mut i: usize = 0;
        while i < n
            invariant
                n == self.word_codes@.len(),
                codes == self.word_codes@,
                key@ == words@,
                i <= n,
                forall|j: int| 0 <= j < i ==> self.word_codes@[j].0@ != words@,
            ensures
                i <= n,
                i < n ==> self.word_codes@[i as int].0@ == words@,
                forall|j: int| 0 <= j < i ==> self.word_codes@[j].0@ != words@,
            decreases n - i,
        {
            if self.word_codes[i].0 == key {
                break;
            }
            i = i + 1;
        }
        if i == n {
            proof {
                assert(!codes_map(codes).contains_key(words@));
                assert(codes_map(codes).remove(words@) =~= codes_map(codes));
            }
            return None;
        }
        proof {
            lemma_codes_map_at(codes, i as int);
            lemma_codes_map_remove(codes, i as int);
        }
        let (_, entry) = self.word_codes.remove(i);
        proof {
            assert(self.word_codes@ == codes.remove(i as int));
            assert(self.groups@ == old(self).groups@);
        }
        let age = if now >= entry.created_at { now - entry.created_at } else { 0 };
        if age < WORD_CODE_TTL_NANOS {
            Some((entry.tg_hash, entry.join_code))
        } else {
            None
        }
    }

    /// The number of peers and the oldest buffered timestamp of a group, both 0
    /// when there is no such group.
    pub fn group_summary(&self, tg: TrustGroupHash) -> (r: (usize, u64))
        ensures
            r == spec_group_summary(self.groups(), tg),
    {
        match self.groups.get(&tg) {
            Some(g) => (g.peer_count(), g.buffer.oldest_timestamp()),
            None => (0, 0),
        }
    }
}

/// A group's summary (the peers and `buffer_oldest` of a WELCOME) is its
/// number of connections and the timestamp of the first, oldest frame in its
/// buffer, 0 when the buffer is empty; (0, 0) for a group that does not exist.
pub proof fn law_group_summary(groups: Map<TrustGroupHash, TrustGroupState>, tg: TrustGroupHash)
    ensures
        spec_group_summary(groups, tg) == if groups.contains_key(tg) {
            (
                groups[tg].connections@.len() as usize,
                if groups[tg].buffer@.len() == 0 { 0 } else { groups[tg].buffer@[0].0 },
            )
        } else {
            (0usize, 0u64)
        },
{
}

/// The number of peers and the oldest buffered timestamp of group `tg`, (0, 0)
/// when there is no such group.
pub open spec fn spec_group_summary(groups: Map<TrustGroupHash, TrustGroupState>, tg: TrustGroupHash) -> (usize, u64) {
    if groups.contains_key(tg) {
        (groups[tg].connections@.len() as usize, groups[tg].buffer.spec_oldest_timestamp())
    } else {
        (0, 0)
    }
}

} // verus!
