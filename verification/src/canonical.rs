//! The canonical JSON form of a snapshot, over which its digest is taken.
use crate::bytes::{decimal, put_bytes, put_decimal, put_text};
use crate::hashing::{json_of, json_text};
use crate::ring::AssignmentView;
use crate::topology::{
    assignment_views, member_views, Member, MemberView, SnapshotView, TokenAssignment,
    TopologySnapshot, WriteAckPolicy,
};
use vstd::prelude::*;
use vstd::utf8::encode_utf8;

verus! {

/// The JSON name of a policy, quotes included.
pub open spec fn policy_json(policy: WriteAckPolicy) -> Seq<u8> {
    match policy {
        WriteAckPolicy::OwnerOnly => encode_utf8("\"OwnerOnly\""@),
        WriteAckPolicy::FirstSuccessor => encode_utf8("\"FirstSuccessor\""@),
        WriteAckPolicy::AllReplicas => encode_utf8("\"AllReplicas\""@),
    }
}

pub open spec fn member_json(m: MemberView) -> Seq<u8> {
    encode_utf8("{\"node_id\":"@) + json_text(m.node_id) + encode_utf8(",\"endpoint\":"@)
        + json_text(m.endpoint) + encode_utf8("}"@)
}

pub open spec fn assignment_json(a: AssignmentView) -> Seq<u8> {
    encode_utf8("{\"token\":"@) + decimal(a.token as nat) + encode_utf8(",\"node_id\":"@)
        + json_text(a.node_id) + encode_utf8("}"@)
}

/// What separates element `i` from the one before it.
pub open spec fn separator(i: int) -> Seq<u8> {
    if i == 0 {
        Seq::empty()
    } else {
        encode_utf8(","@)
    }
}

/// The first `n` members, separated by commas.
pub open spec fn members_json(members: Seq<MemberView>, n: nat) -> Seq<u8>
    decreases n,
{
    if n == 0 {
        Seq::empty()
    } else {
        members_json(members, (n - 1) as nat) + separator(n - 1) + member_json(members[n - 1])
    }
}

/// The first `n` assignments, separated by commas.
pub open spec fn assignments_json(assignments: Seq<AssignmentView>, n: nat) -> Seq<u8>
    decreases n,
{
    if n == 0 {
        Seq::empty()
    } else {
        assignments_json(assignments, (n - 1) as nat) + separator(n - 1) + assignment_json(
            assignments[n - 1],
        )
    }
}

/// The settings in front of the lists.
pub open spec fn header_json(s: SnapshotView) -> Seq<u8> {
    encode_utf8("{\"epoch\":"@) + decimal(s.epoch as nat) + encode_utf8(",\"hash_seed\":"@)
        + decimal(s.hash_seed as nat) + encode_utf8(",\"hash_algorithm\":"@) + json_text(
        s.hash_algorithm,
    ) + encode_utf8(",\"encoding_version\":"@) + decimal(s.encoding_version as nat) + encode_utf8(
        ",\"virtual_nodes\":"@,
    ) + decimal(s.virtual_nodes as nat) + encode_utf8(",\"desired_replication_factor\":"@)
        + decimal(s.desired_replication_factor as nat) + encode_utf8(",\"write_ack_policy\":"@)
        + policy_json(s.write_ack_policy) + encode_utf8(
        ",\"write_availability_guard\":{\"minimum_admitted_copies\":"@,
    ) + decimal(s.write_availability_guard.minimum_admitted_copies as nat) + encode_utf8(
        ",\"minimum_healthy_followers\":"@,
    ) + decimal(s.write_availability_guard.minimum_healthy_followers as nat) + encode_utf8(
        ",\"max_replica_lag_millis\":"@,
    ) + decimal(s.write_availability_guard.max_replica_lag_millis as nat) + encode_utf8(
        "},\"members\":["@,
    )
}

/// A snapshot as one JSON object, fields in declaration order and no white space.
pub open spec fn canonical_json(s: SnapshotView) -> Seq<u8> {
    header_json(s) + members_json(s.members, s.members.len()) + encode_utf8("],\"assignments\":["@)
        + assignments_json(s.assignments, s.assignments.len()) + encode_utf8("],\"digest\":"@)
        + json_text(s.digest) + encode_utf8("}"@)
}

fn put_json(out: &mut Vec<u8>, text: &str)
    ensures
        final(out)@ == old(out)@ + json_text(text@),
{
    let json = json_of(text);
    put_bytes(out, json.as_slice());
}

fn put_policy(out: &mut Vec<u8>, policy: WriteAckPolicy)
    ensures
        final(out)@ == old(out)@ + policy_json(policy),
{
    match policy {
        WriteAckPolicy::OwnerOnly => put_text(out, "\"OwnerOnly\""),
        WriteAckPolicy::FirstSuccessor => put_text(out, "\"FirstSuccessor\""),
        WriteAckPolicy::AllReplicas => put_text(out, "\"AllReplicas\""),
    }
}

fn put_member(out: &mut Vec<u8>, m: &Member)
    ensures
        final(out)@ == old(out)@ + member_json(m@),
{
    put_text(out, "{\"node_id\":");
    put_json(out, m.node_id.as_str());
    put_text(out, ",\"endpoint\":");
    put_json(out, m.endpoint.as_str());
    put_text(out, "}");
    proof {
        assert(out@ =~= old(out)@ + member_json(m@));
    }
}

fn put_assignment(out: &mut Vec<u8>, a: &TokenAssignment)
    ensures
        final(out)@ == old(out)@ + assignment_json(a@),
{
    put_text(out, "{\"token\":");
    put_decimal(out, a.token);
    put_text(out, ",\"node_id\":");
    put_json(out, a.node_id.as_str());
    put_text(out, "}");
    proof {
        assert(out@ =~= old(out)@ + assignment_json(a@));
    }
}

fn put_members(out: &mut Vec<u8>, members: &Vec<Member>)
    ensures
        final(out)@ == old(out)@ + members_json(member_views(members@), members@.len()),
{
    let ghost views = member_views(members@);
    let ghost start = out@;
    let mut i: usize = 0;
    proof {
        assert(start + members_json(views, 0) =~= start);
    }
    while i < members.len()
        invariant
            i <= members.len(),
            views == member_views(members@),
            out@ == start + members_json(views, i as nat),
        decreases members.len() - i,
    {
        let ghost before = out@;
        if i > 0 {
            put_text(out, ",");
        }
        put_member(out, &members[i]);
        proof {
            assert(views[i as int] == members@[i as int]@);
            assert(out@ =~= before + separator(i as int) + member_json(views[i as int]));
            assert(out@ =~= start + members_json(views, (i + 1) as nat));
        }
        i = i + 1;
    }
}

fn put_assignments(out: &mut Vec<u8>, assignments: &Vec<TokenAssignment>)
    ensures
        final(out)@ == old(out)@ + assignments_json(
            assignment_views(assignments@),
            assignments@.len(),
        ),
{
    let ghost views = assignment_views(assignments@);
    let ghost start = out@;
    let mut i: usize = 0;
    proof {
        assert(start + assignments_json(views, 0) =~= start);
    }
    while i < assignments.len()
        invariant
            i <= assignments.len(),
            views == assignment_views(assignments@),
            out@ == start + assignments_json(views, i as nat),
        decreases assignments.len() - i,
    {
        let ghost before = out@;
        if i > 0 {
            put_text(out, ",");
        }
        put_assignment(out, &assignments[i]);
        proof {
            assert(views[i as int] == assignments@[i as int]@);
            assert(out@ =~= before + separator(i as int) + assignment_json(views[i as int]));
            assert(out@ =~= start + assignments_json(views, (i + 1) as nat));
        }
        i = i + 1;
    }
}

/// Writes a snapshot in canonical JSON, with `digest` in the place of its own.
pub fn canonical_json_of(s: &TopologySnapshot, digest: &str) -> (r: Vec<u8>)
    ensures
        r@ == canonical_json(SnapshotView { digest: digest@, ..s@ }),
{
    let mut out: Vec<u8> = Vec::new();
    put_text(&mut out, "{\"epoch\":");
    put_decimal(&mut out, s.epoch);
    put_text(&mut out, ",\"hash_seed\":");
    put_decimal(&mut out, s.hash_seed);
    put_text(&mut out, ",\"hash_algorithm\":");
    put_json(&mut out, s.hash_algorithm.as_str());
    put_text(&mut out, ",\"encoding_version\":");
    put_decimal(&mut out, s.encoding_version as u64);
    put_text(&mut out, ",\"virtual_nodes\":");
    put_decimal(&mut out, s.virtual_nodes as u64);
    put_text(&mut out, ",\"desired_replication_factor\":");
    put_decimal(&mut out, s.desired_replication_factor as u64);
    put_text(&mut out, ",\"write_ack_policy\":");
    put_policy(&mut out, s.write_ack_policy);
    put_text(&mut out, ",\"write_availability_guard\":{\"minimum_admitted_copies\":");
    put_decimal(&mut out, s.write_availability_guard.minimum_admitted_copies as u64);
    put_text(&mut out, ",\"minimum_healthy_followers\":");
    put_decimal(&mut out, s.write_availability_guard.minimum_healthy_followers as u64);
    put_text(&mut out, ",\"max_replica_lag_millis\":");
    put_decimal(&mut out, s.write_availability_guard.max_replica_lag_millis);
    put_text(&mut out, "},\"members\":[");
    proof {
        assert(out@ =~= header_json(s@));
        assert(header_json(s@) == header_json(SnapshotView { digest: digest@, ..s@ }));
    }
    put_members(&mut out, &s.members);
    put_text(&mut out, "],\"assignments\":[");
    put_assignments(&mut out, &s.assignments);
    put_text(&mut out, "],\"digest\":");
    put_json(&mut out, digest);
    put_text(&mut out, "}");
    out
}

} // verus!
