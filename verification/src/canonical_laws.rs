//! The canonical JSON form tells topologies apart, and so does the digest over it.
use crate::bytes::decimal;
use crate::canonical::{
    assignment_json, assignments_json, canonical_json, header_json, member_json, members_json,
    policy_json, separator,
};
use crate::encoding_laws::{
    collide, lemma_cut, lemma_digest_tells, lemma_group2, lemma_group3, lemma_group5, lemma_group6,
    lemma_utf8_tells,
};
use crate::hashing::{blake3_hex, hex_digit, json_byte, json_bytes, json_text};
use crate::ring::AssignmentView;
use crate::topology::{build, MemberView, SnapshotView, TopologyConfig, WriteAckPolicy};
use vstd::prelude::*;
use vstd::utf8::{encode_scalar, encode_utf8};

verus! {

/// A byte that is no decimal digit.
spec fn no_digit(b: u8) -> bool {
    b < 48 || b > 57
}

/// A byte string begins with something else than a digit.
spec fn breaks(s: Seq<u8>) -> bool {
    s.len() > 0 && no_digit(s[0])
}

proof fn lemma_ascii(c: u32)
    requires
        c < 128,
    ensures
        encode_scalar(c) == seq![c as u8],
{
    assert((c & 0x7f) == c) by (bit_vector)
        requires
            c < 128,
    ;
}

/// The first bytes of a text that begins with an ASCII character.
proof fn lemma_first_byte(text: Seq<char>)
    requires
        text.len() > 0,
        (text[0] as u32) < 128,
    ensures
        encode_utf8(text).len() > 0,
        encode_utf8(text)[0] == text[0] as u32,
        text.len() > 1 && (text[1] as u32) < 128 ==> encode_utf8(text).len() > 1 && encode_utf8(
            text,
        )[1] == text[1] as u32,
{
    lemma_ascii(text[0] as u32);
    let rest = text.drop_first();
    assert(encode_utf8(text) =~= seq![(text[0] as u32) as u8] + encode_utf8(rest));
    if text.len() > 1 && (text[1] as u32) < 128 {
        assert(rest[0] == text[1]);
        lemma_ascii(rest[0] as u32);
        assert(encode_utf8(rest) =~= seq![(rest[0] as u32) as u8] + encode_utf8(rest.drop_first()));
    }
}

proof fn lemma_digits(n: nat)
    ensures
        decimal(n).len() > 0,
        forall|i: int| 0 <= i < decimal(n).len() ==> !no_digit(#[trigger] decimal(n)[i]),
    decreases n,
{
    if n >= 10 {
        lemma_digits(n / 10);
    }
}

proof fn lemma_decimal_tells(a: nat, b: nat)
    requires
        decimal(a) == decimal(b),
    ensures
        a == b,
    decreases a,
{
    if a < 10 {
        if b >= 10 {
            lemma_digits(b / 10);
        } else {
            assert(decimal(a)[0] == 48 + a);
            assert(decimal(b)[0] == 48 + b);
        }
    } else {
        lemma_digits(a / 10);
        if b >= 10 {
            assert(decimal(a).drop_last() =~= decimal(a / 10));
            assert(decimal(b).drop_last() =~= decimal(b / 10));
            lemma_decimal_tells(a / 10, b / 10);
            assert(decimal(a).last() == 48 + a % 10);
            assert(decimal(b).last() == 48 + b % 10);
        }
    }
}

/// A number ends where something else than a digit begins.
proof fn lemma_read_decimal(a: nat, s: Seq<u8>, b: nat, t: Seq<u8>)
    requires
        decimal(a) + s == decimal(b) + t,
        breaks(s),
        breaks(t),
    ensures
        a == b,
        s == t,
{
    lemma_digits(a);
    lemma_digits(b);
    let x = decimal(a) + s;
    let y = decimal(b) + t;
    let m = decimal(a).len() as int;
    let n = decimal(b).len() as int;
    assert(x[m] == s[0]);
    assert(y[n] == t[0]);
    if m < n {
        assert(y[m] == decimal(b)[m]);
    } else if n < m {
        assert(x[n] == decimal(a)[n]);
    }
    lemma_cut(decimal(a), s, decimal(b), t);
    lemma_decimal_tells(a, b);
}

proof fn lemma_hex_byte(n: u8)
    requires
        n < 16,
    ensures
        hex_digit(n) as u8 == if n < 10 {
            48 + n
        } else {
            87 + n
        },
{
}

/// What stands for a byte tells where it ends, and never begins with a quote.
proof fn lemma_read_json_byte(a: u8, s: Seq<u8>, b: u8, t: Seq<u8>)
    requires
        json_byte(a) + s == json_byte(b) + t,
    ensures
        a == b,
        s == t,
{
    let x = json_byte(a) + s;
    let y = json_byte(b) + t;
    assert(x[0] == json_byte(a)[0]);
    assert(y[0] == json_byte(b)[0]);
    if json_byte(a).len() > 1 {
        assert(x[1] == json_byte(a)[1]);
    }
    if json_byte(b).len() > 1 {
        assert(y[1] == json_byte(b)[1]);
    }
    if json_byte(a).len() > 2 {
        assert(x[4] == json_byte(a)[4] && x[5] == json_byte(a)[5]);
        lemma_hex_byte(a / 16);
        lemma_hex_byte(a % 16);
    }
    if json_byte(b).len() > 2 {
        assert(y[4] == json_byte(b)[4] && y[5] == json_byte(b)[5]);
        lemma_hex_byte(b / 16);
        lemma_hex_byte(b % 16);
    }
    assert(json_byte(a).len() == json_byte(b).len());
    lemma_cut(json_byte(a), s, json_byte(b), t);
    assert(a == b);
}

proof fn lemma_json_front(a: Seq<u8>)
    requires
        a.len() > 0,
    ensures
        json_bytes(a) == json_byte(a[0]) + json_bytes(a.drop_first()),
    decreases a.len(),
{
    if a.len() == 1 {
        assert(a.drop_last() =~= Seq::<u8>::empty());
        assert(a.drop_first() =~= Seq::<u8>::empty());
        assert(json_bytes(a) =~= json_byte(a[0]) + json_bytes(a.drop_first()));
    } else {
        let b = a.drop_last();
        lemma_json_front(b);
        assert(a.drop_first().drop_last() =~= b.drop_first());
        assert(a.drop_first().last() == a.last());
        assert(json_bytes(a) =~= json_byte(a[0]) + json_bytes(a.drop_first()));
    }
}

proof fn lemma_read_json_bytes(a: Seq<u8>, s: Seq<u8>, b: Seq<u8>, t: Seq<u8>)
    requires
        json_bytes(a) + (seq![34u8] + s) == json_bytes(b) + (seq![34u8] + t),
    ensures
        a == b,
        s == t,
    decreases a.len(),
{
    let x = json_bytes(a) + (seq![34u8] + s);
    let y = json_bytes(b) + (seq![34u8] + t);
    if a.len() == 0 {
        assert(x[0] == 34);
        if b.len() > 0 {
            lemma_json_front(b);
            assert(y[0] == json_byte(b[0])[0]);
        } else {
            assert(x =~= seq![34u8] + s && y =~= seq![34u8] + t);
            lemma_cut(seq![34u8], s, seq![34u8], t);
            assert(a =~= b);
        }
    } else if b.len() == 0 {
        lemma_json_front(a);
        assert(y[0] == 34);
        assert(x[0] == json_byte(a[0])[0]);
    } else {
        lemma_json_front(a);
        lemma_json_front(b);
        let p = json_bytes(a.drop_first()) + (seq![34u8] + s);
        let q = json_bytes(b.drop_first()) + (seq![34u8] + t);
        assert(x =~= json_byte(a[0]) + p);
        assert(y =~= json_byte(b[0]) + q);
        lemma_read_json_byte(a[0], p, b[0], q);
        lemma_read_json_bytes(a.drop_first(), s, b.drop_first(), t);
        assert(a =~= seq![a[0]] + a.drop_first());
        assert(b =~= seq![b[0]] + b.drop_first());
    }
}

/// A JSON string tells where it ends.
pub proof fn lemma_read_json_text(a: Seq<char>, s: Seq<u8>, b: Seq<char>, t: Seq<u8>)
    requires
        json_text(a) + s == json_text(b) + t,
    ensures
        a == b,
        s == t,
{
    let x = encode_utf8(a);
    let y = encode_utf8(b);
    let q = seq![34u8];
    lemma_group3(q, json_bytes(x), q, s);
    lemma_group3(q, json_bytes(y), q, t);
    lemma_cut(q, json_bytes(x) + (q + s), q, json_bytes(y) + (q + t));
    lemma_read_json_bytes(x, s, y, t);
    lemma_utf8_tells(a, b);
}

proof fn lemma_json_text_starts(a: Seq<char>)
    ensures
        json_text(a).len() > 0,
        json_text(a)[0] == 34,
{
}

proof fn lemma_policy_start(p: WriteAckPolicy)
    ensures
        policy_json(p).len() > 1,
        policy_json(p)[0] == 34,
        policy_json(p)[1] == match p {
            WriteAckPolicy::OwnerOnly => 79u8,
            WriteAckPolicy::FirstSuccessor => 70u8,
            WriteAckPolicy::AllReplicas => 65u8,
        },
{
    reveal_strlit("\"OwnerOnly\"");
    reveal_strlit("\"FirstSuccessor\"");
    reveal_strlit("\"AllReplicas\"");
    lemma_first_byte("\"OwnerOnly\""@);
    lemma_first_byte("\"FirstSuccessor\""@);
    lemma_first_byte("\"AllReplicas\""@);
}

proof fn lemma_read_policy(a: WriteAckPolicy, s: Seq<u8>, b: WriteAckPolicy, t: Seq<u8>)
    requires
        policy_json(a) + s == policy_json(b) + t,
    ensures
        a == b,
        s == t,
{
    lemma_policy_start(a);
    lemma_policy_start(b);
    let x = policy_json(a) + s;
    let y = policy_json(b) + t;
    assert(x[1] == policy_json(a)[1]);
    assert(y[1] == policy_json(b)[1]);
    lemma_cut(policy_json(a), s, policy_json(b), t);
}

/// A member tells where it ends.
proof fn lemma_read_member(a: MemberView, s: Seq<u8>, b: MemberView, t: Seq<u8>)
    requires
        member_json(a) + s == member_json(b) + t,
    ensures
        a == b,
        s == t,
{
    let l1 = encode_utf8("{\"node_id\":"@);
    let l2 = encode_utf8(",\"endpoint\":"@);
    let l3 = encode_utf8("}"@);
    lemma_group5(l1, json_text(a.node_id), l2, json_text(a.endpoint), l3, s);
    lemma_group5(l1, json_text(b.node_id), l2, json_text(b.endpoint), l3, t);
    let p1 = json_text(a.endpoint) + (l3 + s);
    let q1 = json_text(b.endpoint) + (l3 + t);
    lemma_cut(l1, json_text(a.node_id) + (l2 + p1), l1, json_text(b.node_id) + (l2 + q1));
    lemma_read_json_text(a.node_id, l2 + p1, b.node_id, l2 + q1);
    lemma_cut(l2, p1, l2, q1);
    lemma_read_json_text(a.endpoint, l3 + s, b.endpoint, l3 + t);
    lemma_cut(l3, s, l3, t);
}

/// An assignment tells where it ends.
proof fn lemma_read_assignment(a: AssignmentView, s: Seq<u8>, b: AssignmentView, t: Seq<u8>)
    requires
        assignment_json(a) + s == assignment_json(b) + t,
    ensures
        a == b,
        s == t,
{
    let l1 = encode_utf8("{\"token\":"@);
    let l2 = encode_utf8(",\"node_id\":"@);
    let l3 = encode_utf8("}"@);
    reveal_strlit(",\"node_id\":");
    lemma_first_byte(",\"node_id\":"@);
    lemma_group5(l1, decimal(a.token as nat), l2, json_text(a.node_id), l3, s);
    lemma_group5(l1, decimal(b.token as nat), l2, json_text(b.node_id), l3, t);
    let p1 = json_text(a.node_id) + (l3 + s);
    let q1 = json_text(b.node_id) + (l3 + t);
    lemma_cut(l1, decimal(a.token as nat) + (l2 + p1), l1, decimal(b.token as nat) + (l2 + q1));
    assert((l2 + p1)[0] == l2[0] && (l2 + q1)[0] == l2[0]);
    lemma_read_decimal(a.token as nat, l2 + p1, b.token as nat, l2 + q1);
    lemma_cut(l2, p1, l2, q1);
    lemma_read_json_text(a.node_id, l3 + s, b.node_id, l3 + t);
    lemma_cut(l3, s, l3, t);
}

/// The first `n` items, separated by commas.
spec fn list_json<T>(items: Seq<T>, form: spec_fn(T) -> Seq<u8>, n: nat) -> Seq<u8>
    decreases n,
{
    if n == 0 {
        Seq::empty()
    } else {
        list_json(items, form, (n - 1) as nat) + separator(n - 1) + form(items[n - 1])
    }
}

/// The items from `i` on, each behind a comma.
spec fn tail_json<T>(items: Seq<T>, form: spec_fn(T) -> Seq<u8>, i: nat) -> Seq<u8>
    decreases items.len() - i,
{
    if i >= items.len() {
        Seq::empty()
    } else {
        encode_utf8(","@) + (form(items[i as int]) + tail_json(items, form, i + 1))
    }
}

/// A form of items in which each begins with a brace and tells where it ends.
spec fn readable<T>(form: spec_fn(T) -> Seq<u8>) -> bool {
    &&& forall|x: T| (#[trigger] form(x)).len() > 0 && form(x)[0] == 123
    &&& forall|x: T, s: Seq<u8>, y: T, t: Seq<u8>|
        #[trigger] (form(x) + s) == #[trigger] (form(y) + t) ==> x == y && s == t
}

proof fn lemma_list_front<T>(items: Seq<T>, form: spec_fn(T) -> Seq<u8>, n: nat)
    requires
        1 <= n <= items.len(),
    ensures
        list_json(items, form, n) + tail_json(items, form, n) == form(items[0]) + tail_json(
            items,
            form,
            1,
        ),
    decreases n,
{
    if n == 1 {
        assert(list_json(items, form, 0) =~= Seq::<u8>::empty());
        assert(list_json(items, form, 1) =~= form(items[0]));
    } else {
        lemma_list_front(items, form, (n - 1) as nat);
        let before = list_json(items, form, (n - 1) as nat);
        let comma = encode_utf8(","@);
        let item = form(items[n - 1]);
        let tail = tail_json(items, form, n);
        assert(tail_json(items, form, (n - 1) as nat) == comma + (item + tail));
        lemma_group3(before, comma, item, tail);
    }
}

proof fn lemma_read_tail<T>(
    a: Seq<T>,
    s: Seq<u8>,
    b: Seq<T>,
    t: Seq<u8>,
    form: spec_fn(T) -> Seq<u8>,
    i: nat,
)
    requires
        readable(form),
        i <= a.len(),
        i <= b.len(),
        s.len() > 0 && s[0] == 93,
        t.len() > 0 && t[0] == 93,
        tail_json(a, form, i) + s == tail_json(b, form, i) + t,
    ensures
        a.len() == b.len(),
        forall|k: int| i <= k < a.len() ==> a[k] == b[k],
        s == t,
    decreases a.len() - i,
{
    let comma = encode_utf8(","@);
    reveal_strlit(",");
    lemma_first_byte(","@);
    let x = tail_json(a, form, i) + s;
    let y = tail_json(b, form, i) + t;
    if i == a.len() {
        assert(x =~= s);
        if i < b.len() {
            assert(y[0] == comma[0]);
        } else {
            assert(y =~= t);
        }
    } else if i == b.len() {
        assert(y =~= t);
        assert(x[0] == comma[0]);
    } else {
        let p = tail_json(a, form, i + 1);
        let q = tail_json(b, form, i + 1);
        assert(x =~= comma + (form(a[i as int]) + (p + s)));
        assert(y =~= comma + (form(b[i as int]) + (q + t)));
        lemma_cut(comma, form(a[i as int]) + (p + s), comma, form(b[i as int]) + (q + t));
        lemma_read_tail(a, s, b, t, form, i + 1);
    }
}

proof fn lemma_read_list<T>(
    a: Seq<T>,
    s: Seq<u8>,
    b: Seq<T>,
    t: Seq<u8>,
    form: spec_fn(T) -> Seq<u8>,
)
    requires
        readable(form),
        s.len() > 0 && s[0] == 93,
        t.len() > 0 && t[0] == 93,
        list_json(a, form, a.len()) + s == list_json(b, form, b.len()) + t,
    ensures
        a == b,
        s == t,
{
    let x = list_json(a, form, a.len());
    let y = list_json(b, form, b.len());
    let e = Seq::<u8>::empty();
    if a.len() > 0 {
        lemma_list_front(a, form, a.len());
        assert(x + e =~= x);
        assert((x + s)[0] == form(a[0])[0]);
    } else {
        assert(x + s =~= s);
    }
    if b.len() > 0 {
        lemma_list_front(b, form, b.len());
        assert(y + e =~= y);
        assert((y + t)[0] == form(b[0])[0]);
    } else {
        assert(y + t =~= t);
    }
    if a.len() > 0 && b.len() > 0 {
        let p = tail_json(a, form, 1) + s;
        let q = tail_json(b, form, 1) + t;
        assert(x + s =~= form(a[0]) + p);
        assert(y + t =~= form(b[0]) + q);
        lemma_read_tail(a, s, b, t, form, 1);
        assert forall|k: int| 0 <= k < a.len() implies a[k] == b[k] by {}
    }
    assert(a =~= b);
}

proof fn lemma_members_list(members: Seq<MemberView>, n: nat)
    ensures
        members_json(members, n) == list_json(members, |m: MemberView| member_json(m), n),
    decreases n,
{
    if n > 0 {
        lemma_members_list(members, (n - 1) as nat);
    }
}

proof fn lemma_assignments_list(assignments: Seq<AssignmentView>, n: nat)
    ensures
        assignments_json(assignments, n) == list_json(
            assignments,
            |a: AssignmentView| assignment_json(a),
            n,
        ),
    decreases n,
{
    if n > 0 {
        lemma_assignments_list(assignments, (n - 1) as nat);
    }
}

proof fn lemma_members_readable()
    ensures
        readable(|m: MemberView| member_json(m)),
{
    let form = |m: MemberView| member_json(m);
    let l1 = encode_utf8("{\"node_id\":"@);
    reveal_strlit("{\"node_id\":");
    lemma_first_byte("{\"node_id\":"@);
    assert forall|x: MemberView| (#[trigger] form(x)).len() > 0 && form(x)[0] == 123 by {
        assert(member_json(x)[0] == l1[0]);
    }
    assert forall|x: MemberView, s: Seq<u8>, y: MemberView, t: Seq<u8>|
        #[trigger] (form(x) + s) == #[trigger] (form(y) + t) implies x == y && s == t by {
        lemma_read_member(x, s, y, t);
    }
}

proof fn lemma_assignments_readable()
    ensures
        readable(|a: AssignmentView| assignment_json(a)),
{
    let form = |a: AssignmentView| assignment_json(a);
    let l1 = encode_utf8("{\"token\":"@);
    reveal_strlit("{\"token\":");
    lemma_first_byte("{\"token\":"@);
    assert forall|x: AssignmentView| (#[trigger] form(x)).len() > 0 && form(x)[0] == 123 by {
        assert(assignment_json(x)[0] == l1[0]);
    }
    assert forall|x: AssignmentView, s: Seq<u8>, y: AssignmentView, t: Seq<u8>|
        #[trigger] (form(x) + s) == #[trigger] (form(y) + t) implies x == y && s == t by {
        lemma_read_assignment(x, s, y, t);
    }
}

spec fn head1(s: SnapshotView) -> Seq<u8> {
    encode_utf8("{\"epoch\":"@) + decimal(s.epoch as nat)
}

spec fn head2(s: SnapshotView) -> Seq<u8> {
    head1(s) + encode_utf8(",\"hash_seed\":"@) + decimal(s.hash_seed as nat)
}

spec fn head3(s: SnapshotView) -> Seq<u8> {
    head2(s) + encode_utf8(",\"hash_algorithm\":"@) + json_text(s.hash_algorithm)
}

spec fn head4(s: SnapshotView) -> Seq<u8> {
    head3(s) + encode_utf8(",\"encoding_version\":"@) + decimal(s.encoding_version as nat)
}

spec fn head5(s: SnapshotView) -> Seq<u8> {
    head4(s) + encode_utf8(",\"virtual_nodes\":"@) + decimal(s.virtual_nodes as nat)
}

spec fn head6(s: SnapshotView) -> Seq<u8> {
    head5(s) + encode_utf8(",\"desired_replication_factor\":"@) + decimal(
        s.desired_replication_factor as nat,
    )
}

spec fn head7(s: SnapshotView) -> Seq<u8> {
    head6(s) + encode_utf8(",\"write_ack_policy\":"@) + policy_json(s.write_ack_policy)
}

spec fn head8(s: SnapshotView) -> Seq<u8> {
    head7(s) + encode_utf8(",\"write_availability_guard\":{\"minimum_admitted_copies\":"@)
        + decimal(s.write_availability_guard.minimum_admitted_copies as nat)
}

spec fn head9(s: SnapshotView) -> Seq<u8> {
    head8(s) + encode_utf8(",\"minimum_healthy_followers\":"@) + decimal(
        s.write_availability_guard.minimum_healthy_followers as nat,
    )
}

spec fn head10(s: SnapshotView) -> Seq<u8> {
    head9(s) + encode_utf8(",\"max_replica_lag_millis\":"@) + decimal(
        s.write_availability_guard.max_replica_lag_millis as nat,
    )
}

/// What follows a number begins with a comma or a brace.
proof fn lemma_breaks(text: Seq<char>, rest: Seq<u8>)
    requires
        text.len() > 0,
        text[0] == ',' || text[0] == '}',
    ensures
        breaks(encode_utf8(text) + rest),
{
    lemma_first_byte(text);
    assert((encode_utf8(text) + rest)[0] == encode_utf8(text)[0]);
}

proof fn lemma_read_head1(a: SnapshotView, s: Seq<u8>, b: SnapshotView, t: Seq<u8>)
    requires
        head1(a) + s == head1(b) + t,
        breaks(s),
        breaks(t),
    ensures
        a.epoch == b.epoch,
        s == t,
{
    let l = encode_utf8("{\"epoch\":"@);
    let x = decimal(a.epoch as nat);
    let y = decimal(b.epoch as nat);
    lemma_group2(l, x, s);
    lemma_group2(l, y, t);
    lemma_cut(l, x + s, l, y + t);
    lemma_read_decimal(a.epoch as nat, s, b.epoch as nat, t);
}

proof fn lemma_read_head2(a: SnapshotView, s: Seq<u8>, b: SnapshotView, t: Seq<u8>)
    requires
        head2(a) + s == head2(b) + t,
        breaks(s),
        breaks(t),
    ensures
        a.epoch == b.epoch,
        a.hash_seed == b.hash_seed,
        s == t,
{
    let l = encode_utf8(",\"hash_seed\":"@);
    let x = decimal(a.hash_seed as nat);
    let y = decimal(b.hash_seed as nat);
    lemma_group3(head1(a), l, x, s);
    lemma_group3(head1(b), l, y, t);
    reveal_strlit(",\"hash_seed\":");
    lemma_breaks(",\"hash_seed\":"@, x + s);
    lemma_breaks(",\"hash_seed\":"@, y + t);
    lemma_read_head1(a, l + (x + s), b, l + (y + t));
    lemma_cut(l, x + s, l, y + t);
    lemma_read_decimal(a.hash_seed as nat, s, b.hash_seed as nat, t);
}

proof fn lemma_read_head3(a: SnapshotView, s: Seq<u8>, b: SnapshotView, t: Seq<u8>)
    requires
        head3(a) + s == head3(b) + t,
    ensures
        a.epoch == b.epoch,
        a.hash_seed == b.hash_seed,
        a.hash_algorithm == b.hash_algorithm,
        s == t,
{
    let l = encode_utf8(",\"hash_algorithm\":"@);
    let x = json_text(a.hash_algorithm);
    let y = json_text(b.hash_algorithm);
    lemma_group3(head2(a), l, x, s);
    lemma_group3(head2(b), l, y, t);
    reveal_strlit(",\"hash_algorithm\":");
    lemma_breaks(",\"hash_algorithm\":"@, x + s);
    lemma_breaks(",\"hash_algorithm\":"@, y + t);
    lemma_read_head2(a, l + (x + s), b, l + (y + t));
    lemma_cut(l, x + s, l, y + t);
    lemma_read_json_text(a.hash_algorithm, s, b.hash_algorithm, t);
}

proof fn lemma_read_head5(a: SnapshotView, s: Seq<u8>, b: SnapshotView, t: Seq<u8>)
    requires
        head5(a) + s == head5(b) + t,
        breaks(s),
        breaks(t),
    ensures
        a.epoch == b.epoch,
        a.hash_seed == b.hash_seed,
        a.hash_algorithm == b.hash_algorithm,
        a.encoding_version == b.encoding_version,
        a.virtual_nodes == b.virtual_nodes,
        s == t,
{
    let k = encode_utf8(",\"encoding_version\":"@);
    let v = decimal(a.encoding_version as nat);
    let w = decimal(b.encoding_version as nat);
    let l = encode_utf8(",\"virtual_nodes\":"@);
    let x = decimal(a.virtual_nodes as nat);
    let y = decimal(b.virtual_nodes as nat);
    lemma_group3(head4(a), l, x, s);
    lemma_group3(head4(b), l, y, t);
    let p = l + (x + s);
    let q = l + (y + t);
    lemma_group3(head3(a), k, v, p);
    lemma_group3(head3(b), k, w, q);
    lemma_read_head3(a, k + (v + p), b, k + (w + q));
    lemma_cut(k, v + p, k, w + q);
    reveal_strlit(",\"virtual_nodes\":");
    lemma_breaks(",\"virtual_nodes\":"@, x + s);
    lemma_breaks(",\"virtual_nodes\":"@, y + t);
    lemma_read_decimal(a.encoding_version as nat, p, b.encoding_version as nat, q);
    lemma_cut(l, x + s, l, y + t);
    lemma_read_decimal(a.virtual_nodes as nat, s, b.virtual_nodes as nat, t);
}

proof fn lemma_read_head7(a: SnapshotView, s: Seq<u8>, b: SnapshotView, t: Seq<u8>)
    requires
        head7(a) + s == head7(b) + t,
    ensures
        a.epoch == b.epoch,
        a.hash_seed == b.hash_seed,
        a.hash_algorithm == b.hash_algorithm,
        a.encoding_version == b.encoding_version,
        a.virtual_nodes == b.virtual_nodes,
        a.desired_replication_factor == b.desired_replication_factor,
        a.write_ack_policy == b.write_ack_policy,
        s == t,
{
    let k = encode_utf8(",\"desired_replication_factor\":"@);
    let v = decimal(a.desired_replication_factor as nat);
    let w = decimal(b.desired_replication_factor as nat);
    let l = encode_utf8(",\"write_ack_policy\":"@);
    let x = policy_json(a.write_ack_policy);
    let y = policy_json(b.write_ack_policy);
    lemma_group3(head6(a), l, x, s);
    lemma_group3(head6(b), l, y, t);
    let p = l + (x + s);
    let q = l + (y + t);
    lemma_group3(head5(a), k, v, p);
    lemma_group3(head5(b), k, w, q);
    reveal_strlit(",\"desired_replication_factor\":");
    lemma_breaks(",\"desired_replication_factor\":"@, v + p);
    lemma_breaks(",\"desired_replication_factor\":"@, w + q);
    lemma_read_head5(a, k + (v + p), b, k + (w + q));
    lemma_cut(k, v + p, k, w + q);
    reveal_strlit(",\"write_ack_policy\":");
    lemma_breaks(",\"write_ack_policy\":"@, x + s);
    lemma_breaks(",\"write_ack_policy\":"@, y + t);
    lemma_read_decimal(
        a.desired_replication_factor as nat,
        p,
        b.desired_replication_factor as nat,
        q,
    );
    lemma_cut(l, x + s, l, y + t);
    lemma_read_policy(a.write_ack_policy, s, b.write_ack_policy, t);
}

proof fn lemma_read_head9(a: SnapshotView, s: Seq<u8>, b: SnapshotView, t: Seq<u8>)
    requires
        head9(a) + s == head9(b) + t,
        breaks(s),
        breaks(t),
    ensures
        a.epoch == b.epoch,
        a.hash_seed == b.hash_seed,
        a.hash_algorithm == b.hash_algorithm,
        a.encoding_version == b.encoding_version,
        a.virtual_nodes == b.virtual_nodes,
        a.desired_replication_factor == b.desired_replication_factor,
        a.write_ack_policy == b.write_ack_policy,
        a.write_availability_guard.minimum_admitted_copies
            == b.write_availability_guard.minimum_admitted_copies,
        a.write_availability_guard.minimum_healthy_followers
            == b.write_availability_guard.minimum_healthy_followers,
        s == t,
{
    let g = a.write_availability_guard;
    let h = b.write_availability_guard;
    let k = encode_utf8(",\"write_availability_guard\":{\"minimum_admitted_copies\":"@);
    let v = decimal(g.minimum_admitted_copies as nat);
    let w = decimal(h.minimum_admitted_copies as nat);
    let l = encode_utf8(",\"minimum_healthy_followers\":"@);
    let x = decimal(g.minimum_healthy_followers as nat);
    let y = decimal(h.minimum_healthy_followers as nat);
    lemma_group3(head8(a), l, x, s);
    lemma_group3(head8(b), l, y, t);
    let p = l + (x + s);
    let q = l + (y + t);
    lemma_group3(head7(a), k, v, p);
    lemma_group3(head7(b), k, w, q);
    lemma_read_head7(a, k + (v + p), b, k + (w + q));
    lemma_cut(k, v + p, k, w + q);
    reveal_strlit(",\"minimum_healthy_followers\":");
    lemma_breaks(",\"minimum_healthy_followers\":"@, x + s);
    lemma_breaks(",\"minimum_healthy_followers\":"@, y + t);
    lemma_read_decimal(g.minimum_admitted_copies as nat, p, h.minimum_admitted_copies as nat, q);
    lemma_cut(l, x + s, l, y + t);
    lemma_read_decimal(
        g.minimum_healthy_followers as nat,
        s,
        h.minimum_healthy_followers as nat,
        t,
    );
}

proof fn lemma_read_header(a: SnapshotView, s: Seq<u8>, b: SnapshotView, t: Seq<u8>)
    requires
        header_json(a) + s == header_json(b) + t,
    ensures
        a.epoch == b.epoch,
        a.hash_seed == b.hash_seed,
        a.hash_algorithm == b.hash_algorithm,
        a.encoding_version == b.encoding_version,
        a.virtual_nodes == b.virtual_nodes,
        a.desired_replication_factor == b.desired_replication_factor,
        a.write_ack_policy == b.write_ack_policy,
        a.write_availability_guard == b.write_availability_guard,
        s == t,
{
    let g = a.write_availability_guard;
    let h = b.write_availability_guard;
    let k = encode_utf8(",\"max_replica_lag_millis\":"@);
    let v = decimal(g.max_replica_lag_millis as nat);
    let w = decimal(h.max_replica_lag_millis as nat);
    let l = encode_utf8("},\"members\":["@);
    assert(header_json(a) == head10(a) + l);
    assert(header_json(b) == head10(b) + l);
    lemma_group2(head10(a), l, s);
    lemma_group2(head10(b), l, t);
    let p = l + s;
    let q = l + t;
    lemma_group3(head9(a), k, v, p);
    lemma_group3(head9(b), k, w, q);
    reveal_strlit(",\"max_replica_lag_millis\":");
    lemma_breaks(",\"max_replica_lag_millis\":"@, v + p);
    lemma_breaks(",\"max_replica_lag_millis\":"@, w + q);
    lemma_read_head9(a, k + (v + p), b, k + (w + q));
    lemma_cut(k, v + p, k, w + q);
    reveal_strlit("},\"members\":[");
    lemma_breaks("},\"members\":["@, s);
    lemma_breaks("},\"members\":["@, t);
    lemma_read_decimal(g.max_replica_lag_millis as nat, p, h.max_replica_lag_millis as nat, q);
    lemma_cut(l, s, l, t);
}

/// Two topologies have one canonical form only if they are the same in every field.
#[verifier::rlimit(40)]
pub proof fn law_canonical_forms_tell_topologies_apart(a: SnapshotView, b: SnapshotView)
    requires
        canonical_json(a) == canonical_json(b),
    ensures
        a == b,
{
    let l1 = encode_utf8("],\"assignments\":["@);
    let l2 = encode_utf8("],\"digest\":"@);
    let l3 = encode_utf8("}"@);
    let e = Seq::<u8>::empty();
    let ma = members_json(a.members, a.members.len());
    let mb = members_json(b.members, b.members.len());
    let na = assignments_json(a.assignments, a.assignments.len());
    let nb = assignments_json(b.assignments, b.assignments.len());
    let da = json_text(a.digest);
    let db = json_text(b.digest);
    assert(canonical_json(a) =~= header_json(a) + ma + l1 + na + l2 + da + (l3 + e));
    assert(canonical_json(b) =~= header_json(b) + mb + l1 + nb + l2 + db + (l3 + e));
    lemma_group6(header_json(a), ma, l1, na, l2, da, l3 + e);
    lemma_group6(header_json(b), mb, l1, nb, l2, db, l3 + e);
    let p3 = da + (l3 + e);
    let q3 = db + (l3 + e);
    let p2 = na + (l2 + p3);
    let q2 = nb + (l2 + q3);
    let p1 = ma + (l1 + p2);
    let q1 = mb + (l1 + q2);
    lemma_read_header(a, p1, b, q1);
    lemma_members_list(a.members, a.members.len());
    lemma_members_list(b.members, b.members.len());
    lemma_members_readable();
    reveal_strlit("],\"assignments\":[");
    lemma_first_byte("],\"assignments\":["@);
    assert((l1 + p2)[0] == l1[0] && (l1 + q2)[0] == l1[0]);
    lemma_read_list(a.members, l1 + p2, b.members, l1 + q2, |m: MemberView| member_json(m));
    lemma_cut(l1, p2, l1, q2);
    lemma_assignments_list(a.assignments, a.assignments.len());
    lemma_assignments_list(b.assignments, b.assignments.len());
    lemma_assignments_readable();
    reveal_strlit("],\"digest\":");
    lemma_first_byte("],\"digest\":"@);
    assert((l2 + p3)[0] == l2[0] && (l2 + q3)[0] == l2[0]);
    lemma_read_list(
        a.assignments,
        l2 + p3,
        b.assignments,
        l2 + q3,
        |x: AssignmentView| assignment_json(x),
    );
    lemma_cut(l2, p3, l2, q3);
    lemma_read_json_text(a.digest, l3 + e, b.digest, l3 + e);
}

/// Two topologies that were built have one digest only if they are the same in every field, unless
/// BLAKE3 itself fails: whoever knows the digest knows epoch, hashing, settings, members and
/// assignments.
pub proof fn law_digests_tell_topologies_apart(
    epoch: u64,
    hash_seed: u64,
    virtual_nodes: u32,
    members: Seq<MemberView>,
    config: TopologyConfig,
    epoch2: u64,
    hash_seed2: u64,
    virtual_nodes2: u32,
    members2: Seq<MemberView>,
    config2: TopologyConfig,
)
    requires
        build(epoch, hash_seed, virtual_nodes, members, config).digest == build(
            epoch2,
            hash_seed2,
            virtual_nodes2,
            members2,
            config2,
        ).digest,
    ensures
        ({
            let a = build(epoch, hash_seed, virtual_nodes, members, config);
            let b = build(epoch2, hash_seed2, virtual_nodes2, members2, config2);
            let x = canonical_json(SnapshotView { digest: Seq::empty(), ..a });
            let y = canonical_json(SnapshotView { digest: Seq::empty(), ..b });
            &&& a.digest == blake3_hex(x)
            &&& a == b || collide(x, y)
            &&& a == b ==> epoch == epoch2 && hash_seed == hash_seed2 && virtual_nodes
                == virtual_nodes2 && config == config2
        }),
{
    let a = build(epoch, hash_seed, virtual_nodes, members, config);
    let b = build(epoch2, hash_seed2, virtual_nodes2, members2, config2);
    let c = SnapshotView { digest: Seq::empty(), ..a };
    let d = SnapshotView { digest: Seq::empty(), ..b };
    lemma_digest_tells(canonical_json(c), canonical_json(d));
    if canonical_json(c) == canonical_json(d) {
        law_canonical_forms_tell_topologies_apart(c, d);
        assert(a == SnapshotView { digest: a.digest, ..c });
        assert(b == SnapshotView { digest: b.digest, ..d });
    }
}

} // verus!
