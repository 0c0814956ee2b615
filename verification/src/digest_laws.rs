//! Digests tell apart what they stand for.
use crate::bytes::{be64, flag_byte, framed};
use crate::drive::ends_agree;
use crate::encoding_laws::{
    collide, fits, lemma_be32_tells, lemma_cut, lemma_digest_tells, lemma_group2, lemma_group3,
    lemma_group4, lemma_group5, lemma_group6, lemma_group9, lemma_read_be64, lemma_read_byte,
    lemma_read_framed, lemma_utf8_tells,
};
use crate::hashing::blake3_hex;
use crate::migration::range_id_bytes;
use crate::node::NodeView;
use crate::node_follow::{entry_head, entry_print, version_bytes};
use crate::node_ranges::within;
use crate::node_streams::EntryView;
use crate::ordmap::{ascending, entry_map, kept, listing_of};
use crate::receipts::{mutation_bytes, mutation_print};
use crate::records::{
    listing_bytes, record_bytes, records_digest, records_input, RangeDigest, RecordView,
};
use crate::topology::vnode_bytes;
use vstd::prelude::*;
use vstd::utf8::encode_utf8;

verus! {

/// Records that a map can hold: they can be listed, and what they consist of can be written
/// behind its length.
pub open spec fn holdable(records: Map<Seq<u8>, RecordView>) -> bool {
    &&& exists|s: Seq<(Seq<u8>, RecordView)>|
        ascending::<Vec<u8>, RecordView>(s) && #[trigger] entry_map(s) == records
    &&& forall|k: Seq<u8>| #[trigger] records.contains_key(k) ==> writable(k, records[k])
}

/// What a record consists of can be written behind its length.
pub open spec fn writable(key: Seq<u8>, record: RecordView) -> bool {
    fits(key) && fits(record.value) && fits(encode_utf8(record.version.owner_node_id))
}

proof fn lemma_read_record(
    a: Seq<u8>,
    x: RecordView,
    s: Seq<u8>,
    b: Seq<u8>,
    y: RecordView,
    t: Seq<u8>,
)
    requires
        writable(a, x),
        writable(b, y),
        record_bytes(a, x) + s == record_bytes(b, y) + t,
    ensures
        a == b,
        x == y,
        s == t,
{
    let o = encode_utf8(x.version.owner_node_id);
    let p = encode_utf8(y.version.owner_node_id);
    let s4 = seq![flag_byte(x.deleted)] + s;
    let t4 = seq![flag_byte(y.deleted)] + t;
    let s3 = framed(x.value) + s4;
    let t3 = framed(y.value) + t4;
    let s2 = framed(o) + s3;
    let t2 = framed(p) + t3;
    let s1 = be64(x.version.owner_sequence) + s2;
    let t1 = be64(y.version.owner_sequence) + t2;
    let s0 = be64(x.version.topology_epoch) + s1;
    let t0 = be64(y.version.topology_epoch) + t1;
    lemma_group6(
        framed(a),
        be64(x.version.topology_epoch),
        be64(x.version.owner_sequence),
        framed(o),
        framed(x.value),
        seq![flag_byte(x.deleted)],
        s,
    );
    lemma_group6(
        framed(b),
        be64(y.version.topology_epoch),
        be64(y.version.owner_sequence),
        framed(p),
        framed(y.value),
        seq![flag_byte(y.deleted)],
        t,
    );
    lemma_read_framed(a, s0, b, t0);
    lemma_read_be64(x.version.topology_epoch, s1, y.version.topology_epoch, t1);
    lemma_read_be64(x.version.owner_sequence, s2, y.version.owner_sequence, t2);
    lemma_read_framed(o, s3, p, t3);
    lemma_read_framed(x.value, s4, y.value, t4);
    lemma_read_byte(flag_byte(x.deleted), s, flag_byte(y.deleted), t);
    lemma_utf8_tells(x.version.owner_node_id, y.version.owner_node_id);
    assert(x =~= y);
}

/// The entries of a listing from `i` on as they are written.
spec fn rest_bytes(l: Seq<(Seq<u8>, RecordView)>, i: nat) -> Seq<u8>
    decreases l.len() - i,
{
    if i >= l.len() {
        Seq::empty()
    } else {
        record_bytes(l[i as int].0, l[i as int].1) + rest_bytes(l, i + 1)
    }
}

proof fn lemma_rest(l: Seq<(Seq<u8>, RecordView)>, i: nat)
    requires
        i <= l.len(),
    ensures
        listing_bytes(l, l.len()) == listing_bytes(l, i) + rest_bytes(l, i),
    decreases l.len() - i,
{
    if i < l.len() {
        lemma_rest(l, i + 1);
        assert(listing_bytes(l, i) + rest_bytes(l, i) =~= listing_bytes(l, i + 1) + rest_bytes(
            l,
            i + 1,
        ));
    } else {
        assert(listing_bytes(l, i) + rest_bytes(l, i) =~= listing_bytes(l, i));
    }
}

spec fn all_writable(l: Seq<(Seq<u8>, RecordView)>) -> bool {
    forall|i: int| 0 <= i < l.len() ==> writable((#[trigger] l[i]).0, l[i].1)
}

proof fn lemma_read_listing(
    l: Seq<(Seq<u8>, RecordView)>,
    m: Seq<(Seq<u8>, RecordView)>,
    i: nat,
)
    requires
        all_writable(l),
        all_writable(m),
        i <= l.len(),
        i <= m.len(),
        rest_bytes(l, i) == rest_bytes(m, i),
        forall|j: int| 0 <= j < i ==> l[j] == m[j],
    ensures
        l == m,
    decreases l.len() - i,
{
    if i < l.len() && i < m.len() {
        let (a, x) = l[i as int];
        let (b, y) = m[i as int];
        lemma_read_record(a, x, rest_bytes(l, i + 1), b, y, rest_bytes(m, i + 1));
        lemma_read_listing(l, m, i + 1);
    } else if i < l.len() {
        assert(rest_bytes(l, i).len() >= framed(l[i as int].0).len());
        assert(rest_bytes(m, i).len() == 0);
    } else if i < m.len() {
        assert(rest_bytes(m, i).len() >= framed(m[i as int].0).len());
        assert(rest_bytes(l, i).len() == 0);
    } else {
        assert(l =~= m);
    }
}

/// What of records is hashed determines them: their keys, values, versions and deletions.
pub proof fn law_hashed_bytes_determine_records(
    a: Map<Seq<u8>, RecordView>,
    b: Map<Seq<u8>, RecordView>,
)
    requires
        holdable(a),
        holdable(b),
        records_input(a) == records_input(b),
    ensures
        a == b,
{
    let l = listing_of::<Vec<u8>, RecordView>(a);
    let m = listing_of::<Vec<u8>, RecordView>(b);
    assert(entry_map(l) == a && entry_map(m) == b);
    crate::ordmap::lemma_ascending_unique::<Vec<u8>, RecordView>(l);
    crate::ordmap::lemma_ascending_unique::<Vec<u8>, RecordView>(m);
    assert forall|i: int| 0 <= i < l.len() implies writable((#[trigger] l[i]).0, l[i].1) by {
        crate::ordmap::lemma_entry(l, i);
        assert(a.contains_key(l[i].0));
    }
    assert forall|i: int| 0 <= i < m.len() implies writable((#[trigger] m[i]).0, m[i].1) by {
        crate::ordmap::lemma_entry(m, i);
        assert(b.contains_key(m[i].0));
    }
    lemma_rest(l, 0);
    lemma_rest(m, 0);
    assert(listing_bytes(l, 0) == listing_bytes(m, 0));
    lemma_cut(listing_bytes(l, 0), rest_bytes(l, 0), listing_bytes(m, 0), rest_bytes(m, 0));
    lemma_read_listing(l, m, 0);
}

/// Records of one digest are the same records, unless BLAKE3 itself fails.
pub proof fn law_digests_tell_records_apart(
    a: Map<Seq<u8>, RecordView>,
    b: Map<Seq<u8>, RecordView>,
)
    requires
        holdable(a),
        holdable(b),
        records_digest(a) == records_digest(b),
    ensures
        a == b || collide(records_input(a), records_input(b)),
{
    lemma_digest_tells(records_input(a), records_input(b));
    if records_input(a) == records_input(b) {
        law_hashed_bytes_determine_records(a, b);
    }
}

/// A record that is changed in its value, its version or its deletion, or that is missing at one
/// end, changes what is hashed.
pub proof fn law_changed_records_change_what_is_hashed(
    a: Map<Seq<u8>, RecordView>,
    key: Seq<u8>,
    record: RecordView,
)
    requires
        holdable(a),
        holdable(a.insert(key, record)),
        !a.contains_key(key) || a[key] != record,
    ensures
        records_input(a.insert(key, record)) != records_input(a),
{
    let b = a.insert(key, record);
    if records_input(b) == records_input(a) {
        law_hashed_bytes_determine_records(b, a);
        assert(b.contains_key(key) && b[key] == record);
    }
}

/// What the digest of a source range is made of.
pub open spec fn digest_of_source(
    n: NodeView,
    key: (Seq<char>, Seq<char>),
    d: RangeDigest,
) -> bool {
    let records = kept(n.records, within(n.topology, n.sources[key].range));
    &&& n.sources.contains_key(key)
    &&& d.digest@ == records_digest(records)
    &&& d.record_count == listing_of::<Vec<u8>, RecordView>(records).len()
    &&& d.changelog_watermark == n.sources[key].watermark
}

/// What the digest of a staged range is made of.
pub open spec fn digest_of_destination(
    n: NodeView,
    key: (Seq<char>, Seq<char>),
    d: RangeDigest,
) -> bool {
    &&& n.destinations.contains_key(key)
    &&& d.digest@ == records_digest(n.destinations[key].records)
    &&& d.record_count == listing_of::<Vec<u8>, RecordView>(n.destinations[key].records).len()
    &&& d.changelog_watermark == n.destinations[key].watermark
}

/// A range is verified exactly where its destination has staged what its source holds, and both
/// have come to the final watermark: a copy that misses a write, or holds an older one, is never
/// verified, unless BLAKE3 itself fails, and a complete copy always is.
pub proof fn law_only_complete_copies_are_verified(
    source: NodeView,
    destination: NodeView,
    key: (Seq<char>, Seq<char>),
    s: RangeDigest,
    d: RangeDigest,
    watermark: u64,
    final_watermark: u64,
)
    requires
        digest_of_source(source, key, s),
        digest_of_destination(destination, key, d),
        holdable(kept(source.records, within(source.topology, source.sources[key].range))),
        holdable(destination.destinations[key].records),
    ensures
        ({
            let held = kept(source.records, within(source.topology, source.sources[key].range));
            let staged = destination.destinations[key].records;
            let reached = source.sources[key].watermark == final_watermark
                && destination.destinations[key].watermark == final_watermark && watermark
                == final_watermark;
            &&& ends_agree(s, d, watermark, final_watermark) ==> reached && (held == staged
                || collide(records_input(held), records_input(staged)))
            &&& reached && held == staged ==> ends_agree(s, d, watermark, final_watermark)
        }),
{
    let held = kept(source.records, within(source.topology, source.sources[key].range));
    let staged = destination.destinations[key].records;
    if ends_agree(s, d, watermark, final_watermark) {
        law_digests_tell_records_apart(held, staged);
    }
}

/// Two writes have one fingerprint only if they write the same to the same key, unless BLAKE3
/// itself fails.
pub proof fn law_fingerprints_tell_writes_apart(
    a: Seq<u8>,
    u: Seq<u8>,
    p: bool,
    b: Seq<u8>,
    v: Seq<u8>,
    q: bool,
)
    requires
        fits(a) && fits(b) && fits(u) && fits(v),
        mutation_print(a, u, p) == mutation_print(b, v, q),
    ensures
        (a == b && u == v && p == q) || collide(mutation_bytes(a, u, p), mutation_bytes(b, v, q)),
{
    let x = mutation_bytes(a, u, p);
    let y = mutation_bytes(b, v, q);
    if x == y {
        let h = encode_utf8("hashring-rs:mutation:v1\0"@);
        let e = Seq::<u8>::empty();
        let s1 = framed(u) + e;
        let t1 = framed(v) + e;
        let s = seq![flag_byte(p)] + s1;
        let t = seq![flag_byte(q)] + t1;
        lemma_group4(h, framed(a), seq![flag_byte(p)], framed(u), e);
        lemma_group4(h, framed(b), seq![flag_byte(q)], framed(v), e);
        lemma_nothing(x);
        lemma_nothing(y);
        lemma_cut(h, framed(a) + s, h, framed(b) + t);
        lemma_read_framed(a, s, b, t);
        lemma_read_byte(flag_byte(p), s1, flag_byte(q), t1);
        lemma_read_framed(u, e, v, e);
    }
}

/// What a write on a stream consists of can be written behind its length.
pub open spec fn entry_writable(e: EntryView) -> bool {
    &&& fits(e.key)
    &&& fits(e.value)
    &&& fits(encode_utf8(e.owner_node_id))
    &&& fits(encode_utf8(e.mutation_id))
    &&& e.version is Some
    &&& fits(encode_utf8(e.version->0.owner_node_id))
}

/// What of a write enters its fingerprint on its stream.
pub open spec fn entry_input(e: EntryView) -> Seq<u8> {
    entry_head(e) + version_bytes(e.version) + framed(encode_utf8(e.mutation_id))
}

/// The bytes of a write on a stream, from the left.
spec fn entry_layout(e: EntryView) -> Seq<u8> {
    let v = e.version->0;
    encode_utf8("hashring-rs:replication-entry:v1\0"@) + (be64(e.topology_epoch) + (framed(
        encode_utf8(e.owner_node_id),
    ) + (be64(e.stream_sequence) + (framed(e.key) + (framed(e.value) + (seq![
        flag_byte(e.deleted),
    ] + (be64(v.topology_epoch) + (be64(v.owner_sequence) + (framed(encode_utf8(v.owner_node_id))
        + (framed(encode_utf8(e.mutation_id)) + Seq::empty()))))))))))
}

proof fn lemma_entry_layout(e: EntryView)
    requires
        e.version is Some,
    ensures
        entry_input(e) == entry_layout(e),
{
    let v = e.version->0;
    let none = Seq::<u8>::empty();
    let last = framed(encode_utf8(e.mutation_id));
    lemma_group9(
        encode_utf8("hashring-rs:replication-entry:v1\0"@),
        be64(e.topology_epoch),
        framed(encode_utf8(e.owner_node_id)),
        be64(e.stream_sequence),
        framed(e.key),
        framed(e.value),
        seq![flag_byte(e.deleted)],
        version_bytes(e.version),
        last,
        none,
    );
    lemma_nothing(entry_input(e));
    lemma_group3(
        be64(v.topology_epoch),
        be64(v.owner_sequence),
        framed(encode_utf8(v.owner_node_id)),
        last + none,
    );
}

proof fn lemma_nothing(a: Seq<u8>)
    ensures
        a + Seq::empty() == a,
{
    assert(a + Seq::empty() =~= a);
}

/// Two writes on streams have one fingerprint only if they are the same write at the same place
/// of the same stream, unless BLAKE3 itself fails.
pub proof fn law_fingerprints_tell_entries_apart(a: EntryView, b: EntryView)
    requires
        entry_writable(a),
        entry_writable(b),
        entry_print(a) == entry_print(b),
    ensures
        a == b || collide(entry_input(a), entry_input(b)),
{
    let x = entry_input(a);
    let y = entry_input(b);
    lemma_digest_tells(x, y);
    if x == y {
        let h = encode_utf8("hashring-rs:replication-entry:v1\0"@);
        let v = a.version->0;
        let w = b.version->0;
        let e = Seq::<u8>::empty();
        let s8 = framed(encode_utf8(a.mutation_id)) + e;
        let t8 = framed(encode_utf8(b.mutation_id)) + e;
        let s7 = framed(encode_utf8(v.owner_node_id)) + s8;
        let t7 = framed(encode_utf8(w.owner_node_id)) + t8;
        let s6 = be64(v.owner_sequence) + s7;
        let t6 = be64(w.owner_sequence) + t7;
        let s5 = be64(v.topology_epoch) + s6;
        let t5 = be64(w.topology_epoch) + t6;
        let s4 = seq![flag_byte(a.deleted)] + s5;
        let t4 = seq![flag_byte(b.deleted)] + t5;
        let s3 = framed(a.value) + s4;
        let t3 = framed(b.value) + t4;
        let s2 = framed(a.key) + s3;
        let t2 = framed(b.key) + t3;
        let s1 = be64(a.stream_sequence) + s2;
        let t1 = be64(b.stream_sequence) + t2;
        let s0 = framed(encode_utf8(a.owner_node_id)) + s1;
        let t0 = framed(encode_utf8(b.owner_node_id)) + t1;
        lemma_entry_layout(a);
        lemma_entry_layout(b);
        lemma_cut(h, be64(a.topology_epoch) + s0, h, be64(b.topology_epoch) + t0);
        lemma_read_be64(a.topology_epoch, s0, b.topology_epoch, t0);
        lemma_read_framed(encode_utf8(a.owner_node_id), s1, encode_utf8(b.owner_node_id), t1);
        lemma_read_be64(a.stream_sequence, s2, b.stream_sequence, t2);
        lemma_read_framed(a.key, s3, b.key, t3);
        lemma_read_framed(a.value, s4, b.value, t4);
        lemma_read_byte(flag_byte(a.deleted), s5, flag_byte(b.deleted), t5);
        lemma_read_be64(v.topology_epoch, s6, w.topology_epoch, t6);
        lemma_read_be64(v.owner_sequence, s7, w.owner_sequence, t7);
        lemma_read_framed(encode_utf8(v.owner_node_id), s8, encode_utf8(w.owner_node_id), t8);
        lemma_read_framed(encode_utf8(a.mutation_id), e, encode_utf8(b.mutation_id), e);
        lemma_utf8_tells(a.owner_node_id, b.owner_node_id);
        lemma_utf8_tells(v.owner_node_id, w.owner_node_id);
        lemma_utf8_tells(a.mutation_id, b.mutation_id);
        assert(v =~= w);
        assert(a =~= b);
    }
}

/// Two moving ranges have one name only if they are the same interval between the same nodes,
/// unless BLAKE3 itself fails.
pub proof fn law_names_tell_ranges_apart(
    start: u64,
    end: u64,
    source: Seq<char>,
    destination: Seq<char>,
    start2: u64,
    end2: u64,
    source2: Seq<char>,
    destination2: Seq<char>,
)
    requires
        fits(encode_utf8(source)) && fits(encode_utf8(source2)),
        fits(encode_utf8(destination)) && fits(encode_utf8(destination2)),
        blake3_hex(range_id_bytes(start, end, source, destination)) == blake3_hex(
            range_id_bytes(start2, end2, source2, destination2),
        ),
    ensures
        (start == start2 && end == end2 && source == source2 && destination == destination2)
            || collide(
            range_id_bytes(start, end, source, destination),
            range_id_bytes(start2, end2, source2, destination2),
        ),
{
    let x = range_id_bytes(start, end, source, destination);
    let y = range_id_bytes(start2, end2, source2, destination2);
    lemma_digest_tells(x, y);
    if x == y {
        let h = encode_utf8("hashring-rs:range:v1\0"@);
        let e = Seq::<u8>::empty();
        let s2 = framed(encode_utf8(destination)) + e;
        let t2 = framed(encode_utf8(destination2)) + e;
        let s1 = framed(encode_utf8(source)) + s2;
        let t1 = framed(encode_utf8(source2)) + t2;
        let s0 = be64(end) + s1;
        let t0 = be64(end2) + t1;
        lemma_group5(
            h,
            be64(start),
            be64(end),
            framed(encode_utf8(source)),
            framed(encode_utf8(destination)),
            e,
        );
        lemma_group5(
            h,
            be64(start2),
            be64(end2),
            framed(encode_utf8(source2)),
            framed(encode_utf8(destination2)),
            e,
        );
        lemma_nothing(x);
        lemma_nothing(y);
        lemma_cut(h, be64(start) + s0, h, be64(start2) + t0);
        lemma_read_be64(start, s0, start2, t0);
        lemma_read_be64(end, s1, end2, t1);
        lemma_read_framed(encode_utf8(source), s2, encode_utf8(source2), t2);
        lemma_read_framed(encode_utf8(destination), e, encode_utf8(destination2), e);
        lemma_utf8_tells(source, source2);
        lemma_utf8_tells(destination, destination2);
    }
}

/// Every virtual node of every member has bytes of its own, from which its place is hashed.
pub proof fn law_virtual_nodes_have_bytes_of_their_own(
    a: Seq<char>,
    i: u32,
    b: Seq<char>,
    j: u32,
)
    requires
        fits(encode_utf8(a)),
        fits(encode_utf8(b)),
        vnode_bytes(a, i) == vnode_bytes(b, j),
    ensures
        a == b,
        i == j,
{
    let h = encode_utf8("hashring-rs:vnode:v1\0"@);
    let s = crate::bytes::be32(i);
    let t = crate::bytes::be32(j);
    lemma_group2(h, framed(encode_utf8(a)), s);
    lemma_group2(h, framed(encode_utf8(b)), t);
    lemma_cut(h, framed(encode_utf8(a)) + s, h, framed(encode_utf8(b)) + t);
    lemma_read_framed(encode_utf8(a), s, encode_utf8(b), t);
    lemma_be32_tells(i, j);
    lemma_utf8_tells(a, b);
}

} // verus!
