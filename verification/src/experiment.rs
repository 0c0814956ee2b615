//! What a trial run of a cluster is made of.
use crate::bytes::{be64, framed, put_be64, put_framed, put_framed_text, put_text};
use crate::hashing::{blake3_hex, blake3_hex_of};
use crate::limits::DEFAULT_MAX_VALUE_BYTES;
use crate::migration::TopologyChange;
use crate::text::{around_number, decimal_text, joined, owned, same_text, texts};
use crate::topology::{member_views, Member, MemberView, SnapshotView, WriteAckPolicy};
use crate::topology_laws::law_every_token_has_a_member_owner;
use vstd::prelude::*;
use vstd::utf8::encode_utf8;

verus! {

/// What a trial is for.
#[derive(Clone, Copy, Debug, Eq, PartialEq, Structural)]
pub enum ExperimentMode {
    Correctness,
    Performance,
    Availability,
}

/// The settings of a trial.
#[derive(Debug, Eq, PartialEq)]
pub struct ExperimentConfig {
    pub mode: ExperimentMode,
    pub output_dir: String,
    pub node_count: usize,
    pub key_count: u64,
    pub value_bytes: usize,
    pub concurrency: usize,
    pub hash_seed: u64,
    pub virtual_nodes: u32,
    pub operation_timeout_ms: u64,
    pub migration_timeout_ms: u64,
    pub range_move_concurrency: usize,
    pub pre_publish_delay_ms: u64,
    pub require_clean_source: bool,
    pub verbose: bool,
    pub desired_replication_factor: u32,
    pub minimum_admitted_copies: u32,
    pub minimum_healthy_followers: u32,
    pub write_ack_policy: WriteAckPolicy,
}

/// How many nodes a trial begins with.
pub open spec fn begins_with(mode: ExperimentMode, node_count: nat) -> nat {
    match mode {
        ExperimentMode::Correctness => (node_count - 1) as nat,
        ExperimentMode::Performance => node_count,
        ExperimentMode::Availability => 3,
    }
}

/// How many nodes a trial begins with.
pub fn initial_count(config: &ExperimentConfig) -> (r: usize)
    requires
        config.node_count >= 1,
    ensures
        r == begins_with(config.mode, config.node_count as nat),
{
    match config.mode {
        ExperimentMode::Correctness => config.node_count - 1,
        ExperimentMode::Performance => config.node_count,
        ExperimentMode::Availability => 3,
    }
}

/// What is wrong with settings for a trial of availability.
pub open spec fn availability_fault(c: ExperimentConfig) -> Option<Seq<char>> {
    if !(c.mode is Availability) {
        None
    } else if c.node_count != 4 {
        Some("availability mode requires exactly 4 nodes (3 initial and 1 replacement)"@)
    } else if c.desired_replication_factor != 3 {
        Some("availability mode requires desired_replication_factor=3"@)
    } else if c.write_ack_policy == WriteAckPolicy::AllReplicas {
        Some("availability mode cannot keep AllReplicas writable after one node fails"@)
    } else {
        None
    }
}

/// What is wrong with the sizes of a trial.
pub open spec fn size_fault(c: ExperimentConfig) -> Option<Seq<char>> {
    if c.key_count == 0 {
        Some("key_count must be positive"@)
    } else if c.key_count > usize::MAX {
        Some("key_count exceeds the platform address space"@)
    } else if c.concurrency == 0 {
        Some("concurrency must be positive"@)
    } else if c.range_move_concurrency == 0 {
        Some("range_move_concurrency must be positive"@)
    } else if c.value_bytes == 0 {
        Some("value_bytes must be positive"@)
    } else if c.value_bytes > DEFAULT_MAX_VALUE_BYTES {
        Some("value_bytes exceeds the data-node limit"@)
    } else if c.virtual_nodes == 0 {
        Some("virtual_nodes must be positive"@)
    } else if c.operation_timeout_ms == 0 || c.migration_timeout_ms == 0 {
        Some("timeouts must be positive"@)
    } else {
        None
    }
}

/// What is wrong with the settings of a trial, if anything is.
pub open spec fn config_fault(c: ExperimentConfig) -> Option<Seq<char>> {
    if c.node_count < 2 {
        Some("node_count must be at least 2"@)
    } else if availability_fault(c) is Some {
        availability_fault(c)
    } else if begins_with(c.mode, c.node_count as nat) < c.desired_replication_factor {
        Some("initial membership must be at least the desired replication factor"@)
    } else if c.minimum_admitted_copies == 0 || c.minimum_admitted_copies
        > c.desired_replication_factor {
        Some("minimum admitted copies must be between 1 and desired RF"@)
    } else if c.minimum_healthy_followers >= c.desired_replication_factor {
        Some("minimum healthy followers must be below desired RF"@)
    } else {
        size_fault(c)
    }
}

/// What is said of a fault.
pub open spec fn said(r: Result<(), String>) -> Option<Seq<char>> {
    match r {
        Ok(_) => None,
        Err(message) => Some(message@),
    }
}

fn check_sizes(c: &ExperimentConfig) -> (r: Result<(), String>)
    ensures
        said(r) == size_fault(*c),
{
    if c.key_count == 0 {
        Err(owned("key_count must be positive"))
    } else if c.key_count > usize::MAX as u64 {
        Err(owned("key_count exceeds the platform address space"))
    } else if c.concurrency == 0 {
        Err(owned("concurrency must be positive"))
    } else if c.range_move_concurrency == 0 {
        Err(owned("range_move_concurrency must be positive"))
    } else if c.value_bytes == 0 {
        Err(owned("value_bytes must be positive"))
    } else if c.value_bytes > DEFAULT_MAX_VALUE_BYTES {
        Err(owned("value_bytes exceeds the data-node limit"))
    } else if c.virtual_nodes == 0 {
        Err(owned("virtual_nodes must be positive"))
    } else if c.operation_timeout_ms == 0 || c.migration_timeout_ms == 0 {
        Err(owned("timeouts must be positive"))
    } else {
        Ok(())
    }
}

/// Checks the settings of a trial.
pub fn validate_config(config: &ExperimentConfig) -> (r: Result<(), String>)
    ensures
        said(r) == config_fault(*config),
{
    if config.node_count < 2 {
        return Err(owned("node_count must be at least 2"));
    }
    if config.mode == ExperimentMode::Availability {
        if config.node_count != 4 {
            return Err(
                owned(
                    "availability mode requires exactly 4 nodes (3 initial and 1 replacement)",
                ),
            );
        }
        if config.desired_replication_factor != 3 {
            return Err(owned("availability mode requires desired_replication_factor=3"));
        }
        if config.write_ack_policy == WriteAckPolicy::AllReplicas {
            return Err(
                owned(
                    "availability mode cannot keep AllReplicas writable after one node fails",
                ),
            );
        }
    }
    if initial_count(config) < config.desired_replication_factor as usize {
        return Err(
            owned("initial membership must be at least the desired replication factor"),
        );
    }
    if config.minimum_admitted_copies == 0 || config.minimum_admitted_copies
        > config.desired_replication_factor {
        return Err(owned("minimum admitted copies must be between 1 and desired RF"));
    }
    if config.minimum_healthy_followers >= config.desired_replication_factor {
        return Err(owned("minimum healthy followers must be below desired RF"));
    }
    check_sizes(config)
}

/// The member of a trial that listens on a port.
pub open spec fn trial_member(index: nat, port: u16) -> MemberView {
    MemberView {
        node_id: "node-"@ + decimal_text(index + 1),
        endpoint: "http://127.0.0.1:"@ + decimal_text(port as nat),
    }
}

/// The members of a trial, one for each port.
pub fn trial_members(ports: &Vec<u16>) -> (r: Vec<Member>)
    requires
        ports@.len() < u64::MAX,
    ensures
        r@.len() == ports@.len(),
        forall|i: int|
            0 <= i < r@.len() ==> (#[trigger] r@[i])@ == trial_member(i as nat, ports@[i]),
{
    let mut r: Vec<Member> = Vec::new();
    let mut i: usize = 0;
    while i < ports.len()
        invariant
            ports@.len() < u64::MAX,
            i <= ports@.len(),
            r@.len() == i,
            forall|j: int|
                0 <= j < i ==> (#[trigger] r@[j])@ == trial_member(j as nat, ports@[j]),
        decreases ports.len() - i,
    {
        let member = Member {
            node_id: around_number("node-", i as u64 + 1, ""),
            endpoint: around_number("http://127.0.0.1:", ports[i] as u64, ""),
        };
        proof {
            reveal_strlit("");
            assert(member.node_id@ =~= "node-"@ + decimal_text(i as nat + 1));
            assert(member.endpoint@ =~= "http://127.0.0.1:"@ + decimal_text(
                ports@[i as int] as nat,
            ));
        }
        r.push(member);
        i = i + 1;
    }
    r
}

/// The command line of a node.
pub open spec fn node_line(node_id: Seq<char>, port: u16, coordinator: Seq<char>) -> Seq<Seq<char>> {
    seq![
        "node"@,
        "--id"@,
        node_id,
        "--listen"@,
        "127.0.0.1:"@ + decimal_text(port as nat),
        "--coordinator"@,
        coordinator,
    ]
}

fn listen_address(port: u16) -> (r: String)
    ensures
        r@ == "127.0.0.1:"@ + decimal_text(port as nat),
{
    let r = around_number("127.0.0.1:", port as u64, "");
    proof {
        reveal_strlit("");
        assert(r@ =~= "127.0.0.1:"@ + decimal_text(port as nat));
    }
    r
}

/// The command line of a node.
pub fn node_arguments(node_id: &String, port: u16, coordinator_endpoint: &String) -> (r: Vec<String>)
    ensures
        texts(r@) == node_line(node_id@, port, coordinator_endpoint@),
{
    let mut r: Vec<String> = Vec::new();
    r.push(owned("node"));
    r.push(owned("--id"));
    r.push(node_id.clone());
    r.push(owned("--listen"));
    r.push(listen_address(port));
    r.push(owned("--coordinator"));
    r.push(coordinator_endpoint.clone());
    proof {
        assert(texts(r@) =~= node_line(node_id@, port, coordinator_endpoint@));
    }
    r
}

/// The command line of a coordinator, without its members.
pub open spec fn coordinator_settings(c: ExperimentConfig, port: u16, state_path: Seq<char>) -> Seq<
    Seq<char>,
> {
    seq![
        "coordinator"@,
        "--listen"@,
        "127.0.0.1:"@ + decimal_text(port as nat),
        "--state"@,
        state_path,
        "--seed"@,
        decimal_text(c.hash_seed as nat),
        "--virtual-nodes"@,
        decimal_text(c.virtual_nodes as nat),
        "--minimum-admitted-copies"@,
        decimal_text(c.minimum_admitted_copies as nat),
        "--minimum-healthy-followers"@,
        decimal_text(c.minimum_healthy_followers as nat),
        "--desired-replication-factor"@,
        decimal_text(c.desired_replication_factor as nat),
        "--migration-timeout-ms"@,
        decimal_text(c.migration_timeout_ms as nat),
        "--range-move-concurrency"@,
        decimal_text(c.range_move_concurrency as nat),
        "--pre-publish-delay-ms"@,
        decimal_text(c.pre_publish_delay_ms as nat),
    ]
}

/// The members on a command line, the first `n` of them.
pub open spec fn member_line(members: Seq<MemberView>, n: nat) -> Seq<Seq<char>>
    decreases n,
{
    if n == 0 {
        Seq::empty()
    } else {
        member_line(members, (n - 1) as nat).push("--member"@).push(
            members[n - 1].node_id + "="@ + members[n - 1].endpoint,
        )
    }
}

fn number(n: u64) -> (r: String)
    ensures
        r@ == decimal_text(n as nat),
{
    let r = around_number("", n, "");
    proof {
        reveal_strlit("");
        assert(r@ =~= decimal_text(n as nat));
    }
    r
}

/// The command line of a coordinator that begins with some members.
pub fn coordinator_arguments(
    config: &ExperimentConfig,
    port: u16,
    state_path: &String,
    members: &Vec<Member>,
    count: usize,
) -> (r: Vec<String>)
    requires
        count <= members@.len(),
    ensures
        texts(r@) == coordinator_settings(*config, port, state_path@) + member_line(
            member_views(members@),
            count as nat,
        ),
{
    let mut r: Vec<String> = Vec::new();
    r.push(owned("coordinator"));
    r.push(owned("--listen"));
    r.push(listen_address(port));
    r.push(owned("--state"));
    r.push(state_path.clone());
    r.push(owned("--seed"));
    r.push(number(config.hash_seed));
    r.push(owned("--virtual-nodes"));
    r.push(number(config.virtual_nodes as u64));
    r.push(owned("--minimum-admitted-copies"));
    r.push(number(config.minimum_admitted_copies as u64));
    r.push(owned("--minimum-healthy-followers"));
    r.push(number(config.minimum_healthy_followers as u64));
    r.push(owned("--desired-replication-factor"));
    r.push(number(config.desired_replication_factor as u64));
    r.push(owned("--migration-timeout-ms"));
    r.push(number(config.migration_timeout_ms));
    r.push(owned("--range-move-concurrency"));
    r.push(number(config.range_move_concurrency as u64));
    r.push(owned("--pre-publish-delay-ms"));
    r.push(number(config.pre_publish_delay_ms));
    let ghost head = coordinator_settings(*config, port, state_path@);
    let ghost m = member_views(members@);
    proof {
        assert(texts(r@) =~= head + member_line(m, 0));
    }
    let mut i: usize = 0;
    while i < count
        invariant
            m == member_views(members@),
            i <= count <= members@.len(),
            texts(r@) == head + member_line(m, i as nat),
        decreases count - i,
    {
        let ghost before = texts(r@);
        proof {
            assert(m[i as int] == members@[i as int]@);
        }
        let name = joined(members[i].node_id.as_str(), "=");
        let value = joined(name.as_str(), members[i].endpoint.as_str());
        let ghost said = value@;
        r.push(owned("--member"));
        r.push(value);
        proof {
            assert(texts(r@) =~= before.push("--member"@).push(said));
            assert(texts(r@) =~= head + member_line(m, (i + 1) as nat));
        }
        i = i + 1;
    }
    r
}

/// Where the values of a key in a round begin.
pub open spec fn value_seed(key: u64, round: u64) -> u64 {
    key ^ ((round << 17) | (round >> 47)) ^ 0x9e37_79b9_7f4a_7c15
}

/// The state after one more block.
pub open spec fn stirred(state: u64) -> u64 {
    let a = state ^ (state >> 12);
    let b = a ^ (a << 25);
    b ^ (b >> 27)
}

/// The state after `n` blocks.
pub open spec fn stirred_times(state: u64, n: nat) -> u64
    decreases n,
{
    if n == 0 {
        state
    } else {
        stirred(stirred_times(state, (n - 1) as nat))
    }
}

/// The first `n` blocks of eight bytes.
pub open spec fn blocks(state: u64, n: nat) -> Seq<u8>
    decreases n,
{
    if n == 0 {
        Seq::empty()
    } else {
        blocks(state, (n - 1) as nat) + be64(
            stirred_times(state, n).wrapping_mul(0x2545_f491_4f6c_dd1d),
        )
    }
}

/// The value of a key in a round: so many bytes of its blocks.
pub open spec fn trial_value(key: u64, round: u64, length: nat) -> Seq<u8> {
    blocks(value_seed(key, round), (length + 7) / 8).subrange(0, length as int)
}

proof fn lemma_blocks_len(state: u64, n: nat)
    ensures
        blocks(state, n).len() == 8 * n,
    decreases n,
{
    if n > 0 {
        lemma_blocks_len(state, (n - 1) as nat);
    }
}

/// The value of a key in a round.
pub fn deterministic_value(key: u64, round: u64, value_bytes: usize) -> (r: Vec<u8>)
    requires
        value_bytes <= usize::MAX - 8,
    ensures
        r@ == trial_value(key, round, value_bytes as nat),
        r@.len() == value_bytes,
{
    let seed = key ^ ((round << 17) | (round >> 47)) ^ 0x9e37_79b9_7f4a_7c15;
    let mut state = seed;
    let mut value: Vec<u8> = Vec::new();
    let ghost mut n: nat = 0;
    while value.len() < value_bytes
        invariant
            value_bytes <= usize::MAX - 8,
            seed == value_seed(key, round),
            state == stirred_times(seed, n),
            value@ == blocks(seed, n),
            value@.len() == 8 * n,
            n == 0 || 8 * (n - 1) < value_bytes,
        decreases value_bytes + 8 - value.len(),
    {
        state = state ^ (state >> 12);
        state = state ^ (state << 25);
        state = state ^ (state >> 27);
        put_be64(&mut value, state.wrapping_mul(0x2545_f491_4f6c_dd1d));
        proof {
            n = n + 1;
            lemma_blocks_len(seed, n);
        }
    }
    proof {
        assert(n == (value_bytes + 7) / 8) by {
            assert(8 * n >= value_bytes);
            assert(n == 0 || 8 * n < value_bytes + 8);
        }
    }
    value.truncate(value_bytes);
    proof {
        assert(value@ =~= trial_value(key, round, value_bytes as nat));
    }
    value
}

/// The first `n` keys that change their owner.
pub open spec fn moving(base: SnapshotView, target: SnapshotView, n: nat) -> Seq<u64>
    decreases n,
{
    if n == 0 {
        Seq::empty()
    } else {
        let rest = moving(base, target, (n - 1) as nat);
        let key = be64((n - 1) as u64);
        if base.owner_id(base.key_token(key)) != target.owner_id(target.key_token(key)) {
            rest.push((n - 1) as u64)
        } else {
            rest
        }
    }
}

/// Lists the keys that change their owner.
pub fn moving_keys(change: &TopologyChange, key_count: u64) -> (r: Vec<u64>)
    requires
        change@.base_topology is Some,
        change@.base_topology->0.sound(),
        change@.target_topology.sound(),
    ensures
        r@ == moving(change@.base_topology->0, change@.target_topology, key_count as nat),
{
    let mut r: Vec<u64> = Vec::new();
    let base = match &change.base_topology {
        Some(base) => base,
        None => return r,
    };
    let target = &change.target_topology;
    let mut key: u64 = 0;
    while key < key_count
        invariant
            base@.sound(),
            target@.sound(),
            key <= key_count,
            r@ == moving(base@, target@, key as nat),
        decreases key_count - key,
    {
        let mut encoded: Vec<u8> = Vec::new();
        put_be64(&mut encoded, key);
        proof {
            assert(encoded@ =~= be64(key));
            law_every_token_has_a_member_owner(base@, base@.key_token(encoded@));
            law_every_token_has_a_member_owner(target@, target@.key_token(encoded@));
        }
        let same = match (base.owner(encoded.as_slice()), target.owner(encoded.as_slice())) {
            (Ok(a), Ok(b)) => same_text(a.node_id.as_str(), b.node_id.as_str()),
            _ => true,
        };
        if !same {
            r.push(key);
        }
        key = key + 1;
    }
    r
}

/// Keys that move, and what is done with each: a third is written anew, a third is deleted, and
/// a third is left alone.
pub struct MovingKeyCohorts {
    pub all: Vec<u64>,
    pub rewrite: Vec<u64>,
    pub delete: Vec<u64>,
    pub sentinels: Vec<u64>,
}

/// Every third of the first `n` keys.
pub open spec fn every_third(all: Seq<u64>, which: nat, n: nat) -> Seq<u64>
    decreases n,
{
    if n == 0 {
        Seq::empty()
    } else {
        let rest = every_third(all, which, (n - 1) as nat);
        if (n - 1) % 3 == which {
            rest.push(all[n - 1])
        } else {
            rest
        }
    }
}

proof fn lemma_thirds(all: Seq<u64>, n: nat)
    ensures
        n >= 1 ==> every_third(all, 0, n).len() > 0,
        n >= 2 ==> every_third(all, 1, n).len() > 0,
        n >= 3 ==> every_third(all, 2, n).len() > 0,
        n < 1 ==> every_third(all, 0, n).len() == 0,
        n < 2 ==> every_third(all, 1, n).len() == 0,
        n < 3 ==> every_third(all, 2, n).len() == 0,
    decreases n,
{
    reveal_with_fuel(every_third, 4);
    if n > 3 {
        lemma_thirds(all, (n - 1) as nat);
    }
}

/// Splits the keys that move with a change; there must be some of each.
pub fn moving_key_cohorts(change: &TopologyChange, key_count: u64) -> (r: Result<
    MovingKeyCohorts,
    String,
>)
    requires
        change@.base_topology is Some,
        change@.base_topology->0.sound(),
        change@.target_topology.sound(),
    ensures
        ({
            let all = moving(
                change@.base_topology->0,
                change@.target_topology,
                key_count as nat,
            );
            match r {
                Ok(c) => {
                    &&& all.len() >= 3
                    &&& c.all@ == all
                    &&& c.rewrite@ == every_third(all, 0, all.len())
                    &&& c.delete@ == every_third(all, 1, all.len())
                    &&& c.sentinels@ == every_third(all, 2, all.len())
                },
                Err(message) => {
                    &&& all.len() < 3
                    &&& message@ == if all.len() == 0 {
                        "migration has no moving rewrite cohort"@
                    } else if all.len() == 1 {
                        "migration has no moving delete cohort"@
                    } else {
                        "migration has no untouched moving sentinel cohort"@
                    }
                },
            }
        }),
{
    let all = moving_keys(change, key_count);
    let mut rewrite: Vec<u64> = Vec::new();
    let mut delete: Vec<u64> = Vec::new();
    let mut sentinels: Vec<u64> = Vec::new();
    let mut i: usize = 0;
    while i < all.len()
        invariant
            i <= all@.len(),
            rewrite@ == every_third(all@, 0, i as nat),
            delete@ == every_third(all@, 1, i as nat),
            sentinels@ == every_third(all@, 2, i as nat),
        decreases all.len() - i,
    {
        let which = i % 3;
        if which == 0 {
            rewrite.push(all[i]);
        } else if which == 1 {
            delete.push(all[i]);
        } else {
            sentinels.push(all[i]);
        }
        i = i + 1;
    }
    proof {
        lemma_thirds(all@, all@.len());
    }
    if rewrite.len() == 0 {
        return Err(owned("migration has no moving rewrite cohort"));
    }
    if delete.len() == 0 {
        return Err(owned("migration has no moving delete cohort"));
    }
    if sentinels.len() == 0 {
        return Err(owned("migration has no untouched moving sentinel cohort"));
    }
    Ok(MovingKeyCohorts { all: all, rewrite: rewrite, delete: delete, sentinels: sentinels })
}

/// A change and its reverse move the same keys.
pub proof fn law_reverse_changes_move_the_same_keys(
    before: SnapshotView,
    after: SnapshotView,
    n: nat,
)
    ensures
        moving(before, after, n) == moving(after, before, n),
    decreases n,
{
    if n > 0 {
        law_reverse_changes_move_the_same_keys(before, after, (n - 1) as nat);
    }
}

/// A key that keeps its owner is not among those that move.
pub proof fn law_only_moving_keys_are_listed(before: SnapshotView, after: SnapshotView, n: nat, i: int)
    requires
        n <= u64::MAX,
        0 <= i < moving(before, after, n).len(),
    ensures
        ({
            let key = moving(before, after, n)[i];
            &&& key < n
            &&& before.owner_id(before.key_token(be64(key))) != after.owner_id(
                after.key_token(be64(key)),
            )
        }),
    decreases n,
{
    if n > 0 {
        let rest = moving(before, after, (n - 1) as nat);
        if i < rest.len() {
            law_only_moving_keys_are_listed(before, after, (n - 1) as nat, i);
        }
    }
}

/// An optional text.
pub open spec fn opt_text(t: Option<&str>) -> Option<Seq<char>> {
    match t {
        Some(t) => Some(t@),
        None => None,
    }
}

fn is_text(t: Option<&str>, expected: &str) -> (r: bool)
    ensures
        r == (opt_text(t) == Some(expected@)),
{
    match t {
        Some(t) => same_text(t, expected),
        None => false,
    }
}

/// Tells whether a run can be repeated from its sources: built from a clean tree, and the same
/// clean tree is there now.
pub fn source_is_reproducible(
    build_git_dirty: &str,
    build_git_commit: &str,
    build_source_tree_blake3: &str,
    runtime_git_status: Option<&str>,
    runtime_git_commit: Option<&str>,
    runtime_source_tree_blake3: Option<&str>,
) -> (r: bool)
    ensures
        r == (build_git_dirty@ == "false"@ && opt_text(runtime_git_status) == Some(""@)
            && opt_text(runtime_git_commit) == Some(build_git_commit@) && opt_text(
            runtime_source_tree_blake3,
        ) == Some(build_source_tree_blake3@)),
{
    same_text(build_git_dirty, "false") && is_text(runtime_git_status, "") && is_text(
        runtime_git_commit,
        build_git_commit,
    ) && is_text(runtime_source_tree_blake3, build_source_tree_blake3)
}

/// A file of a source tree.
pub struct SourceFile {
    /// Its path within the tree.
    pub path: String,
    pub contents: Vec<u8>,
}

impl View for SourceFile {
    type V = (Seq<char>, Seq<u8>);

    open spec fn view(&self) -> (Seq<char>, Seq<u8>) {
        (self.path@, self.contents@)
    }
}

/// What the digest of a source tree is made of: the first `n` files.
pub open spec fn tree_bytes(files: Seq<(Seq<char>, Seq<u8>)>, n: nat) -> Seq<u8>
    decreases n,
{
    if n == 0 {
        encode_utf8("hashring-rs:source-tree:v1\0"@)
    } else {
        tree_bytes(files, (n - 1) as nat) + framed(encode_utf8(files[n - 1].0)) + framed(
            files[n - 1].1,
        )
    }
}

/// The digest of a source tree, its files in order.
pub fn source_tree_digest(files: &Vec<SourceFile>) -> (r: String)
    ensures
        r@ == blake3_hex(tree_bytes(crate::views::views(files@), files@.len())),
{
    let ghost s = crate::views::views(files@);
    let mut bytes: Vec<u8> = Vec::new();
    put_text(&mut bytes, "hashring-rs:source-tree:v1\0");
    proof {
        assert(bytes@ =~= tree_bytes(s, 0));
    }
    let mut i: usize = 0;
    while i < files.len()
        invariant
            s == crate::views::views(files@),
            i <= files@.len(),
            bytes@ == tree_bytes(s, i as nat),
        decreases files.len() - i,
    {
        proof {
            assert(s[i as int] == files@[i as int]@);
        }
        put_framed_text(&mut bytes, files[i].path.as_str());
        put_framed(&mut bytes, files[i].contents.as_slice());
        i = i + 1;
    }
    blake3_hex_of(bytes.as_slice())
}

} // verus!
