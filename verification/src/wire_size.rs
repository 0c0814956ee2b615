//! How long topologies and changes are when sent.
//!
//! Messages are sent in the encoding of protocol buffers. Every field has a number below sixteen,
//! numbers are sent as variable-length integers, and a field that holds its default is left out.
use crate::limits::MAX_CONTROL_MESSAGE_BYTES;
use crate::migration::{
    ChangeView, MoveView, ObligationView, RangeMigration, ReplicaObligation, TopologyChange,
    MAX_MIGRATION_RANGES, MAX_REPLICA_OBLIGATIONS,
};
use crate::ring::AssignmentView;
use crate::text::{byte_count, text_len, texts};
use crate::topology::{
    assignment_views, member_views, validation_error, Member, MemberView, SnapshotView,
    TokenAssignment, TopologySnapshot, WriteAvailabilityGuard, HASH_ALGORITHM, MAX_ENDPOINT_BYTES,
    MAX_MEMBERS, MAX_NODE_ID_BYTES,
};
use crate::topology_laws::{
    law_built_topologies_are_sound, law_valid_topologies_are_canonical, lemma_members_ok, member_ok,
    of_member,
};
use crate::views::{opt, views};
use crate::wire::{
    WireChange, WireChangeView, WirePhase, WirePolicy, WireSnapshot, WireSnapshotView,
};
use vstd::prelude::*;
use vstd::utf8::encode_scalar;

verus! {

/// The length of a variable-length integer: seven bits to a byte.
pub open spec fn varint_size(n: nat) -> nat
    decreases n,
{
    if n < 128 {
        1
    } else {
        1 + varint_size(n / 128)
    }
}

/// The length of a field that holds a number.
pub open spec fn number_size(n: nat) -> nat {
    if n == 0 {
        0
    } else {
        1 + varint_size(n)
    }
}

/// The length of a field that holds so many bytes, present even where there are none.
pub open spec fn block_size(len: nat) -> nat {
    1 + varint_size(len) + len
}

/// The length of a field that holds a text.
pub open spec fn text_size(text: Seq<char>) -> nat {
    if byte_count(text) == 0 {
        0
    } else {
        block_size(byte_count(text))
    }
}

/// The length of a field that holds a flag.
pub open spec fn flag_size(flag: bool) -> nat {
    if flag {
        2
    } else {
        0
    }
}

/// The length of a field that holds the number of a variant; negative numbers take ten bytes.
pub open spec fn variant_size(value: int) -> nat {
    if value < 0 {
        11
    } else {
        number_size(value as nat)
    }
}

pub open spec fn policy_size(policy: WirePolicy) -> nat {
    match policy {
        WirePolicy::Unspecified => 0,
        WirePolicy::Known(_) => 2,
        WirePolicy::Unrecognized(value) => variant_size(value as int),
    }
}

pub open spec fn phase_size(phase: WirePhase) -> nat {
    match phase {
        WirePhase::Unspecified => 0,
        WirePhase::Known(_) => 2,
        WirePhase::Unrecognized(value) => variant_size(value as int),
    }
}

/// The sum of the first `n` lengths.
pub open spec fn sum_of(lengths: spec_fn(int) -> nat, n: nat) -> nat
    decreases n,
{
    if n == 0 {
        0
    } else {
        sum_of(lengths, (n - 1) as nat) + lengths(n - 1)
    }
}

pub open spec fn guard_size(guard: WriteAvailabilityGuard) -> nat {
    number_size(guard.minimum_admitted_copies as nat) + number_size(
        guard.minimum_healthy_followers as nat,
    ) + number_size(guard.max_replica_lag_millis as nat)
}

pub open spec fn member_size(member: MemberView) -> nat {
    text_size(member.node_id) + text_size(member.endpoint)
}

pub open spec fn assignment_size(assignment: AssignmentView) -> nat {
    number_size(assignment.token as nat) + text_size(assignment.node_id)
}

pub open spec fn members_size(members: Seq<MemberView>, n: nat) -> nat {
    sum_of(|i: int| block_size(member_size(members[i])), n)
}

pub open spec fn assignments_size(assignments: Seq<AssignmentView>, n: nat) -> nat {
    sum_of(|i: int| block_size(assignment_size(assignments[i])), n)
}

/// The length of a topology.
pub open spec fn snapshot_size(s: WireSnapshotView) -> nat {
    number_size(s.epoch as nat) + number_size(s.hash_seed as nat) + text_size(s.hash_algorithm)
        + number_size(s.encoding_version as nat) + number_size(s.virtual_nodes as nat)
        + number_size(s.desired_replication_factor as nat) + policy_size(s.write_ack_policy) + (
    match s.write_availability_guard {
        Some(guard) => block_size(guard_size(guard)),
        None => 0,
    }) + members_size(s.members, s.members.len()) + assignments_size(
        s.assignments,
        s.assignments.len(),
    ) + text_size(s.digest)
}

pub open spec fn move_size(m: MoveView) -> nat {
    text_size(m.range_id) + number_size(m.start_exclusive as nat) + number_size(
        m.end_inclusive as nat,
    ) + text_size(m.source_node_id) + text_size(m.destination_node_id) + text_size(
        m.source_endpoint,
    ) + text_size(m.destination_endpoint) + text_size(m.source_process_instance_id) + text_size(
        m.destination_process_instance_id,
    ) + flag_size(m.source_cleaned) + number_size(m.snapshot_records as nat) + number_size(
        m.changelog_watermark as nat,
    ) + flag_size(m.verified)
}

pub open spec fn obligation_size(o: ObligationView) -> nat {
    number_size(o.start_exclusive as nat) + number_size(o.end_inclusive as nat) + text_size(
        o.source_node_id,
    ) + text_size(o.destination_node_id)
}

pub open spec fn moves_size(moves: Seq<MoveView>, n: nat) -> nat {
    sum_of(|i: int| block_size(move_size(moves[i])), n)
}

pub open spec fn obligations_size(obligations: Seq<ObligationView>, n: nat) -> nat {
    sum_of(|i: int| block_size(obligation_size(obligations[i])), n)
}

/// The length of a list of texts; one that is empty is present too.
pub open spec fn list_size(list: Seq<Seq<char>>, n: nat) -> nat {
    sum_of(|i: int| block_size(byte_count(list[i])), n)
}

pub open spec fn optional_text_size(text: Option<Seq<char>>) -> nat {
    match text {
        Some(text) => block_size(byte_count(text)),
        None => 0,
    }
}

pub open spec fn optional_snapshot_size(s: Option<WireSnapshotView>) -> nat {
    match s {
        Some(s) => block_size(snapshot_size(s)),
        None => 0,
    }
}

/// The length of a change.
pub open spec fn change_size(c: WireChangeView) -> nat {
    text_size(c.change_id) + number_size(c.base_epoch as nat) + optional_snapshot_size(
        c.base_topology,
    ) + optional_text_size(c.supersedes_change_id) + optional_snapshot_size(c.target_topology)
        + phase_size(c.phase) + moves_size(c.ranges, c.ranges.len()) + obligations_size(
        c.replica_obligations,
        c.replica_obligations.len(),
    ) + list_size(c.stopped_node_ids, c.stopped_node_ids.len()) + list_size(
        c.stopping_node_ids,
        c.stopping_node_ids.len(),
    ) + list_size(c.stop_prepared_node_ids, c.stop_prepared_node_ids.len()) + optional_text_size(
        c.failed_node_id,
    ) + flag_size(c.activation_ready) + flag_size(c.direct_merge)
}

pub proof fn lemma_varint_bound(n: nat)
    ensures
        varint_size(n) >= 1,
        n <= u64::MAX ==> varint_size(n) <= 10,
        n < 0x1_0000_0000 ==> varint_size(n) <= 5,
        n < 2_097_152 ==> varint_size(n) <= 3,
        n < 16_384 ==> varint_size(n) <= 2,
        n < 128 ==> varint_size(n) == 1,
{
    reveal_with_fuel(varint_size, 11);
}

proof fn lemma_sum_monotone(lengths: spec_fn(int) -> nat, n: nat, m: nat)
    requires
        n <= m,
    ensures
        sum_of(lengths, n) <= sum_of(lengths, m),
    decreases m,
{
    if n < m {
        lemma_sum_monotone(lengths, n, (m - 1) as nat);
    }
}

proof fn lemma_sum_bound(lengths: spec_fn(int) -> nat, n: nat, bound: nat)
    requires
        forall|i: int| 0 <= i < n ==> #[trigger] lengths(i) <= bound,
    ensures
        sum_of(lengths, n) <= n * bound,
    decreases n,
{
    if n > 0 {
        lemma_sum_bound(lengths, (n - 1) as nat, bound);
        assert(lengths(n - 1) <= bound);
        assert(n * bound == (n - 1) * bound + bound) by (nonlinear_arith)
            requires
                n > 0,
        ;
    } else {
        assert(0 * bound == 0) by (nonlinear_arith);
    }
}

fn varint_len(n: u64) -> (r: u64)
    ensures
        r == varint_size(n as nat),
        1 <= r <= 10,
{
    proof {
        lemma_varint_bound(n as nat);
    }
    let mut rest: u64 = n;
    let mut r: u64 = 1;
    while rest >= 128
        invariant
            r + varint_size(rest as nat) == varint_size(n as nat) + 1,
            r <= varint_size(n as nat) <= 10,
        decreases rest,
    {
        proof {
            lemma_varint_bound((rest / 128) as nat);
        }
        rest = rest / 128;
        r = r + 1;
    }
    r
}

pub(crate) fn number_len(n: u64) -> (r: u64)
    ensures
        r == number_size(n as nat),
        r <= 11,
{
    if n == 0 {
        0
    } else {
        1 + varint_len(n)
    }
}

pub(crate) fn block_len(len: u64) -> (r: u64)
    requires
        block_size(len as nat) <= u64::MAX,
    ensures
        r == block_size(len as nat),
{
    1 + varint_len(len) + len
}

pub(crate) fn text_size_of(text: &String) -> (r: u64)
    requires
        text_size(text@) <= u64::MAX,
    ensures
        r == text_size(text@),
{
    let n = text_len(text.as_str());
    if n == 0 {
        0
    } else {
        block_len(n as u64)
    }
}

pub(crate) fn flag_len(flag: bool) -> (r: u64)
    ensures
        r == flag_size(flag),
{
    if flag {
        2
    } else {
        0
    }
}

fn variant_len(value: i32) -> (r: u64)
    ensures
        r == variant_size(value as int),
        r <= 11,
{
    if value < 0 {
        11
    } else {
        number_len(value as u64)
    }
}

fn policy_len(policy: WirePolicy) -> (r: u64)
    ensures
        r == policy_size(policy),
        r <= 11,
{
    match policy {
        WirePolicy::Unspecified => 0,
        WirePolicy::Known(_) => 2,
        WirePolicy::Unrecognized(value) => variant_len(value),
    }
}

fn phase_len(phase: WirePhase) -> (r: u64)
    ensures
        r == phase_size(phase),
        r <= 11,
{
    match phase {
        WirePhase::Unspecified => 0,
        WirePhase::Known(_) => 2,
        WirePhase::Unrecognized(value) => variant_len(value),
    }
}

fn members_len(members: &Vec<Member>) -> (r: u64)
    requires
        members_size(member_views(members@), members@.len()) <= u64::MAX,
    ensures
        r == members_size(member_views(members@), members@.len()),
{
    let ghost v = member_views(members@);
    let ghost f = |i: int| block_size(member_size(v[i]));
    let mut r: u64 = 0;
    let mut i: usize = 0;
    while i < members.len()
        invariant
            v == member_views(members@),
            f == (|i: int| block_size(member_size(v[i]))),
            i <= members@.len(),
            members_size(v, members@.len()) <= u64::MAX,
            members_size(v, members@.len()) == sum_of(f, members@.len()),
            r == sum_of(f, i as nat),
        decreases members.len() - i,
    {
        proof {
            lemma_sum_monotone(f, (i + 1) as nat, members@.len());
            assert(f(i as int) == block_size(member_size(members@[i as int]@)));
        }
        let len = text_size_of(&members[i].node_id) + text_size_of(&members[i].endpoint);
        r = r + block_len(len);
        i = i + 1;
    }
    r
}

fn assignments_len(assignments: &Vec<TokenAssignment>) -> (r: u64)
    requires
        assignments_size(assignment_views(assignments@), assignments@.len()) <= u64::MAX,
    ensures
        r == assignments_size(assignment_views(assignments@), assignments@.len()),
{
    let ghost v = assignment_views(assignments@);
    let ghost f = |i: int| block_size(assignment_size(v[i]));
    let mut r: u64 = 0;
    let mut i: usize = 0;
    while i < assignments.len()
        invariant
            v == assignment_views(assignments@),
            f == (|i: int| block_size(assignment_size(v[i]))),
            i <= assignments@.len(),
            assignments_size(v, assignments@.len()) <= u64::MAX,
            assignments_size(v, assignments@.len()) == sum_of(f, assignments@.len()),
            r == sum_of(f, i as nat),
        decreases assignments.len() - i,
    {
        proof {
            lemma_sum_monotone(f, (i + 1) as nat, assignments@.len());
            assert(f(i as int) == block_size(assignment_size(assignments@[i as int]@)));
        }
        let len = number_len(assignments[i].token) + text_size_of(&assignments[i].node_id);
        r = r + block_len(len);
        i = i + 1;
    }
    r
}

fn texts_len(list: &Vec<String>) -> (r: u64)
    requires
        list_size(texts(list@), list@.len()) <= u64::MAX,
    ensures
        r == list_size(texts(list@), list@.len()),
{
    let ghost v = texts(list@);
    let ghost f = |i: int| block_size(byte_count(v[i]));
    let mut r: u64 = 0;
    let mut i: usize = 0;
    while i < list.len()
        invariant
            v == texts(list@),
            f == (|i: int| block_size(byte_count(v[i]))),
            i <= list@.len(),
            list_size(v, list@.len()) <= u64::MAX,
            list_size(v, list@.len()) == sum_of(f, list@.len()),
            r == sum_of(f, i as nat),
        decreases list.len() - i,
    {
        proof {
            lemma_sum_monotone(f, (i + 1) as nat, list@.len());
            assert(f(i as int) == block_size(byte_count(list@[i as int]@)));
        }
        let len = text_len(list[i].as_str()) as u64;
        r = r + block_len(len);
        i = i + 1;
    }
    r
}

fn move_len(m: &RangeMigration) -> (r: u64)
    requires
        move_size(m@) <= u64::MAX,
    ensures
        r == move_size(m@),
{
    text_size_of(&m.range_id) + number_len(m.start_exclusive) + number_len(m.end_inclusive)
        + text_size_of(&m.source_node_id) + text_size_of(&m.destination_node_id) + text_size_of(
        &m.source_endpoint,
    ) + text_size_of(&m.destination_endpoint) + text_size_of(&m.source_process_instance_id)
        + text_size_of(&m.destination_process_instance_id) + flag_len(m.source_cleaned)
        + number_len(m.snapshot_records) + number_len(m.changelog_watermark) + flag_len(m.verified)
}

fn moves_len(moves: &Vec<RangeMigration>) -> (r: u64)
    requires
        moves_size(views(moves@), moves@.len()) <= u64::MAX,
    ensures
        r == moves_size(views(moves@), moves@.len()),
{
    let ghost v = views(moves@);
    let ghost f = |i: int| block_size(move_size(v[i]));
    let mut r: u64 = 0;
    let mut i: usize = 0;
    while i < moves.len()
        invariant
            v == views(moves@),
            f == (|i: int| block_size(move_size(v[i]))),
            i <= moves@.len(),
            moves_size(v, moves@.len()) <= u64::MAX,
            moves_size(v, moves@.len()) == sum_of(f, moves@.len()),
            r == sum_of(f, i as nat),
        decreases moves.len() - i,
    {
        proof {
            lemma_sum_monotone(f, (i + 1) as nat, moves@.len());
            assert(f(i as int) == block_size(move_size(moves@[i as int]@)));
        }
        let len = move_len(&moves[i]);
        r = r + block_len(len);
        i = i + 1;
    }
    r
}

fn obligations_len(list: &Vec<ReplicaObligation>) -> (r: u64)
    requires
        obligations_size(views(list@), list@.len()) <= u64::MAX,
    ensures
        r == obligations_size(views(list@), list@.len()),
{
    let ghost v = views(list@);
    let ghost f = |i: int| block_size(obligation_size(v[i]));
    let mut r: u64 = 0;
    let mut i: usize = 0;
    while i < list.len()
        invariant
            v == views(list@),
            f == (|i: int| block_size(obligation_size(v[i]))),
            i <= list@.len(),
            obligations_size(v, list@.len()) <= u64::MAX,
            obligations_size(v, list@.len()) == sum_of(f, list@.len()),
            r == sum_of(f, i as nat),
        decreases list.len() - i,
    {
        proof {
            lemma_sum_monotone(f, (i + 1) as nat, list@.len());
            assert(f(i as int) == block_size(obligation_size(list@[i as int]@)));
        }
        let o = &list[i];
        let len = number_len(o.start_exclusive) + number_len(o.end_inclusive) + text_size_of(
            &o.source_node_id,
        ) + text_size_of(&o.destination_node_id);
        r = r + block_len(len);
        i = i + 1;
    }
    r
}

impl WireSnapshot {
    /// How many bytes the topology takes when sent.
    pub fn encoded_len(&self) -> (r: u64)
        requires
            snapshot_size(self@) <= u64::MAX,
        ensures
            r == snapshot_size(self@),
    {
        let guard: u64 = match self.write_availability_guard {
            Some(guard) => {
                let len = number_len(guard.minimum_admitted_copies as u64) + number_len(
                    guard.minimum_healthy_followers as u64,
                ) + number_len(guard.max_replica_lag_millis);
                proof {
                    lemma_varint_bound(len as nat);
                }
                block_len(len)
            },
            None => 0,
        };
        number_len(self.epoch) + number_len(self.hash_seed) + text_size_of(&self.hash_algorithm)
            + number_len(self.encoding_version as u64) + number_len(self.virtual_nodes as u64)
            + number_len(self.desired_replication_factor as u64) + policy_len(
            self.write_ack_policy,
        ) + guard + members_len(&self.members) + assignments_len(&self.assignments)
            + text_size_of(&self.digest)
    }
}

fn optional_len(text: &Option<String>) -> (r: u64)
    requires
        optional_text_size(opt(*text)) <= u64::MAX,
    ensures
        r == optional_text_size(opt(*text)),
{
    match text {
        Some(text) => block_len(text_len(text.as_str()) as u64),
        None => 0,
    }
}

fn optional_snapshot_len(s: &Option<WireSnapshot>) -> (r: u64)
    requires
        optional_snapshot_size(opt(*s)) <= u64::MAX,
    ensures
        r == optional_snapshot_size(opt(*s)),
{
    match s {
        Some(s) => block_len(s.encoded_len()),
        None => 0,
    }
}

impl WireChange {
    /// How many bytes the change takes when sent.
    pub fn encoded_len(&self) -> (r: u64)
        requires
            change_size(self@) <= u64::MAX,
        ensures
            r == change_size(self@),
    {
        text_size_of(&self.change_id) + number_len(self.base_epoch) + optional_snapshot_len(
            &self.base_topology,
        ) + optional_len(&self.supersedes_change_id) + optional_snapshot_len(&self.target_topology)
            + phase_len(self.phase) + moves_len(&self.ranges) + obligations_len(
            &self.replica_obligations,
        ) + texts_len(&self.stopped_node_ids) + texts_len(&self.stopping_node_ids) + texts_len(
            &self.stop_prepared_node_ids,
        ) + optional_len(&self.failed_node_id) + flag_len(self.activation_ready) + flag_len(
            self.direct_merge,
        )
    }
}

proof fn lemma_bytes_per_char(text: Seq<char>)
    ensures
        byte_count(text) <= 4 * text.len(),
    decreases text.len(),
{
    if text.len() > 0 {
        lemma_bytes_per_char(text.drop_first());
        assert(encode_scalar(text[0] as u32).len() <= 4);
    }
}

pub proof fn lemma_text_bound(text: Seq<char>, bound: nat)
    requires
        byte_count(text) <= bound < 16_384,
    ensures
        text_size(text) <= 3 + bound,
        bound < 128 ==> text_size(text) <= 2 + bound,
{
    lemma_varint_bound(byte_count(text));
}

pub proof fn lemma_number_bound(n: nat)
    requires
        n <= u64::MAX,
    ensures
        number_size(n) <= 11,
{
    lemma_varint_bound(n);
}

/// The topology's digest is no longer than a digest is: sixty-four characters.
pub open spec fn digest_fits(s: SnapshotView) -> bool {
    s.digest.len() <= 64
}

proof fn lemma_snapshot_bound(s: SnapshotView)
    requires
        s.sound(),
        s.assignments.len() == s.members.len() * s.virtual_nodes,
        s.hash_algorithm == HASH_ALGORITHM@,
        digest_fits(s),
    ensures
        snapshot_size(s.sent()) <= 49_600_000,
{
    let members = s.members;
    let assignments = s.assignments;
    let f = |i: int| block_size(member_size(members[i]));
    assert forall|i: int| 0 <= i < members.len() implies #[trigger] f(i) <= 296 by {
        assert(member_ok(members[i]));
        lemma_text_bound(members[i].node_id, 32);
        lemma_text_bound(members[i].endpoint, 256);
        lemma_varint_bound(member_size(members[i]));
    }
    lemma_sum_bound(f, members.len(), 296);
    let g = |i: int| block_size(assignment_size(assignments[i]));
    assert forall|i: int| 0 <= i < assignments.len() implies #[trigger] g(i) <= 47 by {
        let a = assignments[i];
        assert(of_member(s.hash_seed, s.virtual_nodes, members, a));
        let k = choose|k: int| 0 <= k < members.len() && (#[trigger] members[k]).node_id == a.node_id;
        assert(member_ok(members[k]));
        lemma_text_bound(a.node_id, 32);
        lemma_number_bound(a.token as nat);
        lemma_varint_bound(assignment_size(a));
    }
    lemma_sum_bound(g, assignments.len(), 47);
    reveal_strlit("xxh3-64");
    lemma_bytes_per_char(s.hash_algorithm);
    lemma_text_bound(s.hash_algorithm, 28);
    lemma_bytes_per_char(s.digest);
    lemma_text_bound(s.digest, 256);
    lemma_number_bound(s.epoch as nat);
    lemma_number_bound(s.hash_seed as nat);
    lemma_number_bound(s.encoding_version as nat);
    lemma_number_bound(s.virtual_nodes as nat);
    lemma_number_bound(s.desired_replication_factor as nat);
    let guard = s.write_availability_guard;
    lemma_number_bound(guard.minimum_admitted_copies as nat);
    lemma_number_bound(guard.minimum_healthy_followers as nat);
    lemma_number_bound(guard.max_replica_lag_millis as nat);
    lemma_varint_bound(guard_size(guard));
}

/// Every valid topology fits into a control message.
pub proof fn law_topologies_fit_control_messages(s: TopologySnapshot)
    requires
        validation_error(s) is None,
        digest_fits(s@),
    ensures
        snapshot_size(s@.sent()) <= MAX_CONTROL_MESSAGE_BYTES,
{
    law_valid_topologies_are_canonical(s);
    lemma_members_ok(s.members@, s.virtual_nodes);
    law_built_topologies_are_sound(
        s.epoch,
        s.hash_seed,
        s.virtual_nodes,
        s@.members,
        s@.config(),
    );
    lemma_snapshot_bound(s@);
}

/// A moving range is no larger than one between members can be.
pub open spec fn move_fits(m: MoveView) -> bool {
    &&& byte_count(m.range_id) <= 64
    &&& byte_count(m.source_node_id) <= MAX_NODE_ID_BYTES
    &&& byte_count(m.destination_node_id) <= MAX_NODE_ID_BYTES
    &&& byte_count(m.source_endpoint) <= MAX_ENDPOINT_BYTES
    &&& byte_count(m.destination_endpoint) <= MAX_ENDPOINT_BYTES
    &&& byte_count(m.source_process_instance_id) <= 36
    &&& byte_count(m.destination_process_instance_id) <= 36
}

pub open spec fn obligation_fits(o: ObligationView) -> bool {
    &&& byte_count(o.source_node_id) <= MAX_NODE_ID_BYTES
    &&& byte_count(o.destination_node_id) <= MAX_NODE_ID_BYTES
}

pub open spec fn names_fit(list: Seq<Seq<char>>) -> bool {
    &&& list.len() <= MAX_MEMBERS
    &&& forall|i: int| 0 <= i < list.len() ==> byte_count(#[trigger] list[i]) <= MAX_NODE_ID_BYTES
}

pub open spec fn name_fits(name: Option<Seq<char>>) -> bool {
    name matches Some(name) ==> byte_count(name) <= 36
}

/// What a change names is no larger than members and processes can be.
pub open spec fn change_fits(c: ChangeView) -> bool {
    &&& byte_count(c.change_id) <= 36
    &&& name_fits(c.supersedes_change_id)
    &&& name_fits(c.failed_node_id)
    &&& c.ranges.len() <= MAX_MIGRATION_RANGES
    &&& forall|i: int| 0 <= i < c.ranges.len() ==> move_fits(#[trigger] c.ranges[i])
    &&& c.replica_obligations.len() <= MAX_REPLICA_OBLIGATIONS
    &&& forall|i: int|
        0 <= i < c.replica_obligations.len() ==> obligation_fits(#[trigger] c.replica_obligations[i])
    &&& names_fit(c.stopped_node_ids)
    &&& names_fit(c.stopping_node_ids)
    &&& names_fit(c.stop_prepared_node_ids)
}

proof fn lemma_move_bound(m: MoveView)
    requires
        move_fits(m),
    ensures
        block_size(move_size(m)) <= 783,
{
    lemma_text_bound(m.range_id, 64);
    lemma_text_bound(m.source_node_id, 32);
    lemma_text_bound(m.destination_node_id, 32);
    lemma_text_bound(m.source_endpoint, 256);
    lemma_text_bound(m.destination_endpoint, 256);
    lemma_text_bound(m.source_process_instance_id, 36);
    lemma_text_bound(m.destination_process_instance_id, 36);
    lemma_number_bound(m.start_exclusive as nat);
    lemma_number_bound(m.end_inclusive as nat);
    lemma_number_bound(m.snapshot_records as nat);
    lemma_number_bound(m.changelog_watermark as nat);
    lemma_varint_bound(move_size(m));
}

proof fn lemma_names_bound(list: Seq<Seq<char>>)
    requires
        names_fit(list),
    ensures
        list_size(list, list.len()) <= 34_816,
{
    let f = |i: int| block_size(byte_count(list[i]));
    assert forall|i: int| 0 <= i < list.len() implies #[trigger] f(i) <= 34 by {
        lemma_varint_bound(byte_count(list[i]));
    }
    lemma_sum_bound(f, list.len(), 34);
}

/// Every change to a valid topology fits into a control message, unless it carries the topology
/// that it starts from along.
pub proof fn law_changes_fit_control_messages(c: TopologyChange)
    requires
        validation_error(c.target_topology) is None,
        digest_fits(c.target_topology@),
        change_fits(c@),
        c.base_topology is None,
    ensures
        change_size(c@.sent()) <= MAX_CONTROL_MESSAGE_BYTES,
{
    let v = c@;
    law_valid_topologies_are_canonical(c.target_topology);
    lemma_members_ok(c.target_topology.members@, c.target_topology.virtual_nodes);
    law_built_topologies_are_sound(
        v.target_topology.epoch,
        v.target_topology.hash_seed,
        v.target_topology.virtual_nodes,
        v.target_topology.members,
        v.target_topology.config(),
    );
    lemma_snapshot_bound(v.target_topology);
    lemma_varint_bound(snapshot_size(v.target_topology.sent()));
    lemma_text_bound(v.change_id, 36);
    lemma_number_bound(v.base_epoch as nat);
    if let Some(name) = v.supersedes_change_id {
        lemma_varint_bound(byte_count(name));
    }
    if let Some(name) = v.failed_node_id {
        lemma_varint_bound(byte_count(name));
    }
    let f = |i: int| block_size(move_size(v.ranges[i]));
    assert forall|i: int| 0 <= i < v.ranges.len() implies #[trigger] f(i) <= 783 by {
        lemma_move_bound(v.ranges[i]);
    }
    lemma_sum_bound(f, v.ranges.len(), 783);
    let g = |i: int| block_size(obligation_size(v.replica_obligations[i]));
    assert forall|i: int| 0 <= i < v.replica_obligations.len() implies #[trigger] g(i) <= 92 by {
        let o = v.replica_obligations[i];
        assert(obligation_fits(o));
        lemma_text_bound(o.source_node_id, 32);
        lemma_text_bound(o.destination_node_id, 32);
        lemma_number_bound(o.start_exclusive as nat);
        lemma_number_bound(o.end_inclusive as nat);
        lemma_varint_bound(obligation_size(o));
    }
    lemma_sum_bound(g, v.replica_obligations.len(), 92);
    lemma_names_bound(v.stopped_node_ids);
    lemma_names_bound(v.stopping_node_ids);
    lemma_names_bound(v.stop_prepared_node_ids);
}

} // verus!
