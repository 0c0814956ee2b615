//! Sequences of an owner's replication streams.
use crate::node::{DataNode, NodeView, MAX_PENDING_REPLICATION_BYTES, MAX_PIECE_BYTES};
use crate::node_write::{replication_bytes, Mutation};
use crate::ordmap::{entry_index, lemma_entry, MapKey};
use crate::records::{copy_bytes, RecordVersion, VersionView};
use crate::text::{byte_count, own_from, text_len, texts};
use crate::topology::first_member;
use crate::topology_laws::law_replica_count;
use crate::views::{opt, views};
use vstd::prelude::*;

verus! {

/// A write as it is numbered for one follower.
#[derive(Debug, Eq, PartialEq)]
pub struct PreparedReplication {
    pub topology_epoch: u64,
    pub follower_node_id: String,
    pub follower_endpoint: String,
    pub stream_sequence: u64,
}

#[verifier::ext_equal]
pub struct PreparedView {
    pub topology_epoch: u64,
    pub follower_node_id: Seq<char>,
    pub follower_endpoint: Seq<char>,
    pub stream_sequence: u64,
}

impl View for PreparedReplication {
    type V = PreparedView;

    open spec fn view(&self) -> PreparedView {
        PreparedView {
            topology_epoch: self.topology_epoch,
            follower_node_id: self.follower_node_id@,
            follower_endpoint: self.follower_endpoint@,
            stream_sequence: self.stream_sequence,
        }
    }
}

impl PreparedView {
    pub open spec fn stream(self) -> (u64, Seq<char>) {
        (self.topology_epoch, self.follower_node_id)
    }
}

/// A write as a follower receives it.
#[derive(Debug, Eq, PartialEq)]
pub struct ReplicationEntry {
    pub topology_epoch: u64,
    pub owner_node_id: String,
    pub stream_sequence: u64,
    pub key: Vec<u8>,
    pub value: Vec<u8>,
    pub deleted: bool,
    pub version: Option<RecordVersion>,
    pub mutation_id: String,
}

#[verifier::ext_equal]
pub struct EntryView {
    pub topology_epoch: u64,
    pub owner_node_id: Seq<char>,
    pub stream_sequence: u64,
    pub key: Seq<u8>,
    pub value: Seq<u8>,
    pub deleted: bool,
    pub version: Option<VersionView>,
    pub mutation_id: Seq<char>,
}

impl View for ReplicationEntry {
    type V = EntryView;

    open spec fn view(&self) -> EntryView {
        EntryView {
            topology_epoch: self.topology_epoch,
            owner_node_id: self.owner_node_id@,
            stream_sequence: self.stream_sequence,
            key: self.key@,
            value: self.value@,
            deleted: self.deleted,
            version: opt(self.version),
            mutation_id: self.mutation_id@,
        }
    }
}

impl PreparedReplication {
    /// The write as this follower receives it.
    pub fn to_entry(&self, m: &Mutation, version: &RecordVersion) -> (r: ReplicationEntry)
        ensures
            r@ == (EntryView {
                topology_epoch: self.topology_epoch,
                owner_node_id: version.owner_node_id@,
                stream_sequence: self.stream_sequence,
                key: m@.key,
                value: m@.value,
                deleted: m.deleted,
                version: Some(version@),
                mutation_id: m@.request_id,
            }),
    {
        ReplicationEntry {
            topology_epoch: self.topology_epoch,
            owner_node_id: version.owner_node_id.clone(),
            stream_sequence: self.stream_sequence,
            key: copy_bytes(m.key.as_slice()),
            value: copy_bytes(m.value.as_slice()),
            deleted: m.deleted,
            version: Some(version.clone()),
            mutation_id: m.request_id.clone(),
        }
    }
}

/// The last sequence of a stream; none was sent on one that is not there.
pub open spec fn last_sequence(seqs: Map<(u64, Seq<char>), u64>, k: (u64, Seq<char>)) -> u64 {
    if seqs.contains_key(k) {
        seqs[k]
    } else {
        0
    }
}

/// The sequences after one more write to the first `n` followers.
pub open spec fn advanced(
    seqs: Map<(u64, Seq<char>), u64>,
    epoch: u64,
    followers: Seq<Seq<char>>,
    n: nat,
) -> Map<(u64, Seq<char>), u64>
    decreases n,
{
    if n == 0 {
        seqs
    } else {
        let m = advanced(seqs, epoch, followers, (n - 1) as nat);
        let k = (epoch, followers[n - 1]);
        m.insert(k, (last_sequence(m, k) + 1) as u64)
    }
}

/// The acknowledgements after streams to the first `n` followers were opened.
pub open spec fn opened(
    progress: Map<(u64, Seq<char>), u64>,
    epoch: u64,
    followers: Seq<Seq<char>>,
    n: nat,
) -> Map<(u64, Seq<char>), u64>
    decreases n,
{
    if n == 0 {
        progress
    } else {
        let m = opened(progress, epoch, followers, (n - 1) as nat);
        let k = (epoch, followers[n - 1]);
        if m.contains_key(k) {
            m
        } else {
            m.insert(k, 0)
        }
    }
}

/// Each follower's stream goes on by one, and no other stream changes.
pub proof fn law_followers_are_numbered_independently(
    seqs: Map<(u64, Seq<char>), u64>,
    epoch: u64,
    followers: Seq<Seq<char>>,
    n: nat,
)
    requires
        followers.no_duplicates(),
        n <= followers.len(),
    ensures
        forall|k: (u64, Seq<char>)| #[trigger]
            last_sequence(advanced(seqs, epoch, followers, n), k) == if k.0 == epoch
                && followers.subrange(0, n as int).contains(k.1) {
                (last_sequence(seqs, k) + 1) as u64
            } else {
                last_sequence(seqs, k)
            },
        forall|k: (u64, Seq<char>)| #[trigger]
            advanced(seqs, epoch, followers, n).contains_key(k) <==> seqs.contains_key(k) || (k.0
                == epoch && followers.subrange(0, n as int).contains(k.1)),
    decreases n,
{
    let f = followers.subrange(0, n as int);
    if n > 0 {
        law_followers_are_numbered_independently(seqs, epoch, followers, (n - 1) as nat);
        let g = followers.subrange(0, n - 1);
        let x = followers[n - 1];
        assert(f =~= g.push(x));
        assert(!g.contains(x)) by {
            if g.contains(x) {
                let i = choose|i: int| 0 <= i < g.len() && g[i] == x;
                assert(followers[i] == followers[n - 1]);
            }
        }
        assert forall|y: Seq<char>| f.contains(y) <==> g.contains(y) || y == x by {
            if f.contains(y) {
                let i = choose|i: int| 0 <= i < f.len() && f[i] == y;
                if i < n - 1 {
                    assert(g[i] == y);
                }
            }
            if g.contains(y) {
                let i = choose|i: int| 0 <= i < g.len() && g[i] == y;
                assert(f[i] == y);
            }
            assert(f[n - 1] == x);
        }
        let m = advanced(seqs, epoch, followers, (n - 1) as nat);
        let a = advanced(seqs, epoch, followers, n);
        assert(a == m.insert((epoch, x), (last_sequence(m, (epoch, x)) + 1) as u64));
        assert forall|k: (u64, Seq<char>)|
            #[trigger] last_sequence(a, k) == (if k.0 == epoch && f.contains(k.1) {
                (last_sequence(seqs, k) + 1) as u64
            } else {
                last_sequence(seqs, k)
            }) && (a.contains_key(k) <==> seqs.contains_key(k) || (k.0 == epoch && f.contains(
                k.1,
            ))) by {
            assert(last_sequence(m, k) == (if k.0 == epoch && g.contains(k.1) {
                (last_sequence(seqs, k) + 1) as u64
            } else {
                last_sequence(seqs, k)
            }));
            assert(m.contains_key(k) <==> seqs.contains_key(k) || (k.0 == epoch && g.contains(
                k.1,
            )));
            if k.0 == epoch && k.1 == x {
                assert(k == (epoch, x));
                assert(a.contains_key(k));
                assert(last_sequence(a, k) == (last_sequence(m, k) + 1) as u64);
            } else {
                assert(a.contains_key(k) == m.contains_key(k));
                assert(last_sequence(a, k) == last_sequence(m, k));
            }
        }
        assert forall|k: (u64, Seq<char>)| #[trigger] a.contains_key(k) <==> seqs.contains_key(k)
            || (k.0 == epoch && f.contains(k.1)) by {
            assert(last_sequence(a, k) == last_sequence(a, k));
        }
    } else {
        assert(f =~= Seq::empty());
    }
}

/// The sequences after the first `n` entries were taken back.
pub open spec fn taken_back(
    seqs: Map<(u64, Seq<char>), u64>,
    entries: Seq<PreparedView>,
    n: nat,
) -> Map<(u64, Seq<char>), u64>
    decreases n,
{
    if n == 0 {
        seqs
    } else {
        let m = taken_back(seqs, entries, (n - 1) as nat);
        let k = entries[n - 1].stream();
        if m[k] == 1 {
            m.remove(k)
        } else {
            m.insert(k, (m[k] - 1) as u64)
        }
    }
}

/// Entries as they were numbered last: each is the end of its own stream.
pub open spec fn at_the_ends(seqs: Map<(u64, Seq<char>), u64>, entries: Seq<PreparedView>) -> bool {
    &&& forall|i: int|
        0 <= i < entries.len() ==> seqs.contains_key((#[trigger] entries[i]).stream())
            && seqs[entries[i].stream()] == entries[i].stream_sequence && entries[i].stream_sequence
            >= 1
    &&& forall|i: int, j: int|
        0 <= i < j < entries.len() ==> (#[trigger] entries[i]).stream() != (
        #[trigger] entries[j]).stream()
}

proof fn lemma_taken_back(seqs: Map<(u64, Seq<char>), u64>, entries: Seq<PreparedView>, n: nat)
    requires
        at_the_ends(seqs, entries),
        n <= entries.len(),
    ensures
        forall|k: (u64, Seq<char>)|
            (forall|i: int| 0 <= i < n ==> (#[trigger] entries[i]).stream() != k) ==> (
            #[trigger] taken_back(seqs, entries, n).contains_key(k) == seqs.contains_key(k)
                && taken_back(seqs, entries, n)[k] == seqs[k]),
        forall|i: int|
            0 <= i < n ==> last_sequence(
                taken_back(seqs, entries, n),
                (#[trigger] entries[i]).stream(),
            ) == entries[i].stream_sequence - 1 && (taken_back(seqs, entries, n).contains_key(
                entries[i].stream(),
            ) <==> entries[i].stream_sequence > 1),
    decreases n,
{
    if n > 0 {
        lemma_taken_back(seqs, entries, (n - 1) as nat);
        let m = taken_back(seqs, entries, (n - 1) as nat);
        let k = entries[n - 1].stream();
        assert(forall|i: int| 0 <= i < n - 1 ==> (#[trigger] entries[i]).stream() != k);
        assert(m.contains_key(k) && m[k] == seqs[k]);
    }
}

/// Taking back what was just numbered restores the streams as they were.
pub proof fn law_rollback_undoes_numbering(
    seqs: Map<(u64, Seq<char>), u64>,
    epoch: u64,
    followers: Seq<Seq<char>>,
    entries: Seq<PreparedView>,
)
    requires
        followers.no_duplicates(),
        entries.len() == followers.len(),
        forall|k: (u64, Seq<char>)| #[trigger] seqs.contains_key(k) ==> 1 <= seqs[k] < u64::MAX,
        forall|i: int|
            0 <= i < entries.len() ==> (#[trigger] entries[i]).stream() == (epoch, followers[i])
                && entries[i].stream_sequence == last_sequence(seqs, (epoch, followers[i])) + 1,
    ensures
        taken_back(
            advanced(seqs, epoch, followers, followers.len()),
            entries,
            entries.len(),
        ) == seqs,
{
    let n = followers.len();
    let a = advanced(seqs, epoch, followers, n);
    law_followers_are_numbered_independently(seqs, epoch, followers, n);
    assert(followers.subrange(0, n as int) =~= followers);
    assert(at_the_ends(a, entries)) by {
        assert forall|i: int| 0 <= i < entries.len() implies a.contains_key(
            (#[trigger] entries[i]).stream(),
        ) && a[entries[i].stream()] == entries[i].stream_sequence && entries[i].stream_sequence
            >= 1 by {
            let k = (epoch, followers[i]);
            assert(followers.contains(followers[i]));
            assert(last_sequence(a, k) == (last_sequence(seqs, k) + 1) as u64);
        }
        assert forall|i: int, j: int| 0 <= i < j < entries.len() implies (
        #[trigger] entries[i]).stream() != (#[trigger] entries[j]).stream() by {
            assert(followers[i] != followers[j]);
        }
    }
    lemma_taken_back(a, entries, n);
    let t = taken_back(a, entries, n);
    assert forall|k: (u64, Seq<char>)| t.contains_key(k) == seqs.contains_key(k) && (
    t.contains_key(k) ==> t[k] == seqs[k]) by {
        if exists|i: int| 0 <= i < n && (#[trigger] entries[i]).stream() == k {
            let i = choose|i: int| 0 <= i < n && (#[trigger] entries[i]).stream() == k;
            assert(last_sequence(t, k) == last_sequence(seqs, k));
        } else {
            assert(forall|i: int| 0 <= i < n ==> (#[trigger] entries[i]).stream() != k);
            assert(t.contains_key(k) == a.contains_key(k));
            assert(t[k] == a[k]);
            if k.0 == epoch && followers.contains(k.1) {
                let i = choose|i: int| 0 <= i < followers.len() && followers[i] == k.1;
                assert(entries[i].stream() == k);
            }
            assert(last_sequence(a, k) == last_sequence(seqs, k));
        }
    }
    assert(t =~= seqs);
}

impl NodeView {
    /// The followers of a key.
    pub open spec fn followers(self, key: Seq<u8>) -> Seq<Seq<char>> {
        let r = self.topology.replicas(self.token(key));
        r.subrange(1, r.len() as int)
    }

    /// A write to `key` as it is numbered for its follower `i`.
    pub open spec fn numbered(self, key: Seq<u8>, i: int) -> PreparedView {
        let f = self.followers(key)[i];
        PreparedView {
            topology_epoch: self.epoch(),
            follower_node_id: f,
            follower_endpoint: self.topology.members[first_member(
                self.topology.members,
                f,
            )].endpoint,
            stream_sequence: (last_sequence(self.owner_stream_sequences, (self.epoch(), f)) + 1) as u64,
        }
    }

    /// A write to `key` as it is numbered for all its followers.
    pub open spec fn numbering(self, key: Seq<u8>) -> Seq<PreparedView> {
        Seq::new(self.followers(key).len(), |i: int| self.numbered(key, i))
    }

    /// The node after a write to `key` was numbered.
    pub open spec fn with_numbering(self, key: Seq<u8>) -> NodeView {
        let f = self.followers(key);
        NodeView {
            owner_stream_sequences: advanced(
                self.owner_stream_sequences,
                self.epoch(),
                f,
                f.len(),
            ),
            ack_progress: opened(self.ack_progress, self.epoch(), f, f.len()),
            ..self
        }
    }

    /// What was just numbered are the ends of streams, one for each follower.
    pub proof fn lemma_numbering(self, key: Seq<u8>)
        requires
            self.topology.sound(),
            self.room(),
        ensures
            at_the_ends(self.with_numbering(key).owner_stream_sequences, self.numbering(key)),
            self.followers(key).no_duplicates(),
            forall|i: int, j: int|
                0 <= i < j < self.numbering(key).len() ==> (#[trigger] self.numbering(
                    key,
                )[i]).follower_node_id != (#[trigger] self.numbering(key)[j]).follower_node_id,
    {
        law_replica_count(self.topology, self.token(key));
        let f = self.followers(key);
        let e = self.numbering(key);
        let r = self.topology.replicas(self.token(key));
        assert forall|i: int, j: int| 0 <= i < j < f.len() implies f[i] != f[j] by {
            assert(r[i + 1] != r[j + 1]);
        }
        law_followers_are_numbered_independently(
            self.owner_stream_sequences,
            self.epoch(),
            f,
            f.len(),
        );
        assert(f.subrange(0, f.len() as int) =~= f);
        let a = self.with_numbering(key).owner_stream_sequences;
        assert forall|i: int| 0 <= i < e.len() implies a.contains_key(
            (#[trigger] e[i]).stream(),
        ) && a[e[i].stream()] == e[i].stream_sequence && e[i].stream_sequence >= 1 by {
            let k = e[i].stream();
            assert(f.contains(f[i]));
            assert(a.contains_key(k));
            assert(last_sequence(a, k) == (last_sequence(self.owner_stream_sequences, k) + 1) as u64);
        }
    }

    /// No counter is at its end.
    pub open spec fn room(self) -> bool {
        &&& self.next_sequence < u64::MAX
        &&& forall|k: (u64, Seq<char>)| #[trigger]
            self.owner_stream_sequences.contains_key(k) ==> self.owner_stream_sequences[k]
                < u64::MAX
        &&& forall|k: (Seq<char>, Seq<char>)| #[trigger]
            self.sources.contains_key(k) ==> self.sources[k].watermark < u64::MAX
    }
}

impl DataNode {
    /// The room that a write takes until every follower has applied it.
    pub fn replication_mutation_bytes(&self, m: &Mutation) -> (r: usize)
        requires
            self.wf(),
            m@.key.len() <= MAX_PIECE_BYTES,
            m@.value.len() <= MAX_PIECE_BYTES,
            byte_count(m@.request_id) <= MAX_PIECE_BYTES,
        ensures
            r == replication_bytes(m@, self@.node_id),
    {
        m.key.len() + m.value.len() + text_len(self.node_id.as_str()) + text_len(
            m.request_id.as_str(),
        ) + 256
    }

    /// Tells whether no counter is at its end.
    pub fn has_room(&self) -> (r: bool)
        ensures
            r == self@.room(),
    {
        if self.next_sequence == u64::MAX {
            return false;
        }
        self.owner_stream_sequences.expose();
        self.sources.expose();
        let ghost s = self.owner_stream_sequences.sequence();
        let ghost t = self.sources.sequence();
        let mut i: usize = 0;
        while i < self.owner_stream_sequences.len()
            invariant
                s == self.owner_stream_sequences.sequence(),
                crate::ordmap::unique_entries(s),
                i <= s.len(),
                forall|j: int| 0 <= j < i ==> (#[trigger] s[j]).1 < u64::MAX,
            decreases s.len() - i,
        {
            proof {
                lemma_entry(s, i as int);
            }
            if *self.owner_stream_sequences.value_at(i) == u64::MAX {
                proof {
                    assert(self@.owner_stream_sequences.contains_key(s[i as int].0));
                }
                return false;
            }
            i = i + 1;
        }
        let mut i: usize = 0;
        while i < self.sources.len()
            invariant
                t == self.sources.sequence(),
                crate::ordmap::unique_entries(t),
                i <= t.len(),
                forall|j: int| 0 <= j < i ==> (#[trigger] t[j]).1.watermark < u64::MAX,
            decreases t.len() - i,
        {
            proof {
                lemma_entry(t, i as int);
            }
            if self.sources.value_at(i).watermark == u64::MAX {
                proof {
                    assert(self@.sources.contains_key(t[i as int].0));
                }
                return false;
            }
            i = i + 1;
        }
        proof {
            assert forall|k: (u64, Seq<char>)| #[trigger]
                self@.owner_stream_sequences.contains_key(k) implies self@.owner_stream_sequences[k]
                < u64::MAX by {
                let j = entry_index(s, k);
                lemma_entry(s, j);
            }
            assert forall|k: (Seq<char>, Seq<char>)| #[trigger]
                self@.sources.contains_key(k) implies self@.sources[k].watermark < u64::MAX by {
                let j = entry_index(t, k);
                lemma_entry(t, j);
            }
        }
        true
    }

    /// Numbers a write for each of its followers. A write that no queue could hold is
    /// refused.
    pub fn prepare_replication_entries(&mut self, m: &Mutation) -> (r: Result<
        Vec<PreparedReplication>,
        (),
    >)
        requires
            old(self).wf(),
            old(self)@.room(),
            m@.key.len() <= MAX_PIECE_BYTES,
            m@.value.len() <= MAX_PIECE_BYTES,
            byte_count(m@.request_id) <= MAX_PIECE_BYTES,
        ensures
            final(self).wf(),
            r is Ok == (replication_bytes(m@, old(self)@.node_id)
                <= MAX_PENDING_REPLICATION_BYTES),
            r matches Ok(entries) ==> views(entries@) == old(self)@.numbering(m@.key),
            final(self)@ == if r is Ok {
                old(self)@.with_numbering(m@.key)
            } else {
                old(self)@
            },
            final(self).receipts == old(self).receipts,
            final(self).sources == old(self).sources,
            final(self).journal_bytes_total == old(self).journal_bytes_total,
            final(self).dedup_peak_bytes == old(self).dedup_peak_bytes,
    {
        let ghost start = *self;
        let ghost n0 = self@;
        let bytes = self.replication_mutation_bytes(m);
        if bytes > MAX_PENDING_REPLICATION_BYTES {
            return Err(());
        }
        let token = self.topology.key_token(m.key.as_slice());
        let epoch = self.topology.epoch;
        let followers = match self.topology.replica_node_ids_for_token(token) {
            Ok(replicas) => own_from(&replicas, 1),
            Err(_) => Vec::new(),
        };
        let ghost f = n0.followers(m@.key);
        proof {
            law_replica_count(n0.topology, token);
            assert(texts(followers@) == f);
            assert(f.len() == followers@.len());
            assert(f.no_duplicates());
        }
        let mut entries: Vec<PreparedReplication> = Vec::new();
        let mut i: usize = 0;
        while i < followers.len()
            invariant
                i <= followers@.len(),
                n0 == start@,
                start.wf(),
                n0.room(),
                self.wf(),
                f == n0.followers(m@.key),
                f == texts(followers@),
                f.len() == followers@.len(),
                f.no_duplicates(),
                forall|j: int| 0 <= j < f.len() ==> n0.topology.is_member(#[trigger] f[j]),
                epoch == n0.topology.epoch,
                self@ == (NodeView {
                    owner_stream_sequences: advanced(
                        n0.owner_stream_sequences,
                        epoch,
                        f,
                        i as nat,
                    ),
                    ack_progress: opened(n0.ack_progress, epoch, f, i as nat),
                    ..n0
                }),
                self.topology == start.topology,
                self.receipts == start.receipts,
                self.sources == start.sources,
                self.journal_bytes_total == start.journal_bytes_total,
                self.dedup_peak_bytes == start.dedup_peak_bytes,
                entries@.len() == i,
                forall|j: int| 0 <= j < i ==> (#[trigger] entries@[j])@ == n0.numbered(m@.key, j),
            decreases followers.len() - i,
        {
            let ghost before = self@;
            proof {
                assert(f[i as int] == followers@[i as int]@);
                law_followers_are_numbered_independently(
                    n0.owner_stream_sequences,
                    epoch,
                    f,
                    i as nat,
                );
                assert(!f.subrange(0, i as int).contains(f[i as int])) by {
                    if f.subrange(0, i as int).contains(f[i as int]) {
                        let p = choose|p: int|
                            0 <= p < i && f.subrange(0, i as int)[p] == f[i as int];
                        assert(f[p] == f[i as int]);
                    }
                }
                assert(last_sequence(before.owner_stream_sequences, (epoch, f[i as int]))
                    == last_sequence(n0.owner_stream_sequences, (epoch, f[i as int])));
                crate::migration::lemma_member_bounds(n0.topology, f[i as int]);
            }
            let stream = (epoch, followers[i].clone());
            let endpoint = match self.topology.member(followers[i].as_str()) {
                Some(member) => member.endpoint.clone(),
                None => String::new(),
            };
            if !self.ack_progress.contains(&stream) {
                let key = (epoch, followers[i].clone());
                let _ = self.ack_progress.insert(key, 0);
            }
            let last = match self.owner_stream_sequences.get(&stream) {
                Some(sequence) => *sequence,
                None => 0,
            };
            let _ = self.owner_stream_sequences.insert(stream, last + 1);
            let entry = PreparedReplication {
                topology_epoch: epoch,
                follower_node_id: followers[i].clone(),
                follower_endpoint: endpoint,
                stream_sequence: last + 1,
            };
            proof {
                assert(entry@ =~= n0.numbered(m@.key, i as int));
                assert(self@.ack_progress =~= opened(n0.ack_progress, epoch, f, (i + 1) as nat));
                assert(self@.owner_stream_sequences =~= advanced(
                    n0.owner_stream_sequences,
                    epoch,
                    f,
                    (i + 1) as nat,
                ));
            }
            entries.push(entry);
            i = i + 1;
        }
        proof {
            assert(views(entries@) =~= n0.numbering(m@.key));
        }
        Ok(entries)
    }

    /// Takes the numbers of a write back.
    pub fn rollback_replication_sequences(&mut self, entries: &Vec<PreparedReplication>)
        requires
            old(self).wf(),
            at_the_ends(old(self)@.owner_stream_sequences, views(entries@)),
        ensures
            final(self).wf(),
            final(self).dedup_peak_bytes == old(self).dedup_peak_bytes,
            final(self).receipts == old(self).receipts,
            final(self)@ == (NodeView {
                owner_stream_sequences: taken_back(
                    old(self)@.owner_stream_sequences,
                    views(entries@),
                    entries@.len(),
                ),
                ..old(self)@
            }),
    {
        let ghost start = *self;
        let ghost n0 = self@;
        let ghost e = views(entries@);
        let mut i: usize = 0;
        while i < entries.len()
            invariant
                i <= entries@.len(),
                start.wf(),
                self.wf(),
                self.dedup_peak_bytes == start.dedup_peak_bytes,
                self.receipts == start.receipts,
                n0 == start@,
                e == views(entries@),
                at_the_ends(n0.owner_stream_sequences, e),
                self@ == (NodeView {
                    owner_stream_sequences: taken_back(n0.owner_stream_sequences, e, i as nat),
                    ..n0
                }),
            decreases entries.len() - i,
        {
            let stream = (entries[i].topology_epoch, entries[i].follower_node_id.clone());
            let ghost before = self@.owner_stream_sequences;
            proof {
                lemma_taken_back(n0.owner_stream_sequences, e, i as nat);
                assert(e[i as int] == entries@[i as int]@);
                assert(stream.id() == e[i as int].stream());
                assert(forall|j: int| 0 <= j < i ==> (#[trigger] e[j]).stream() != stream.id());
                assert(before.contains_key(stream.id()));
            }
            let last = match self.owner_stream_sequences.get(&stream) {
                Some(sequence) => *sequence,
                None => 1,
            };
            if last == 1 {
                let _ = self.owner_stream_sequences.remove(&stream);
            } else {
                let key = (entries[i].topology_epoch, entries[i].follower_node_id.clone());
                let _ = self.owner_stream_sequences.insert(key, last - 1);
            }
            proof {
                assert(self@.owner_stream_sequences =~= taken_back(
                    n0.owner_stream_sequences,
                    e,
                    (i + 1) as nat,
                ));
            }
            i = i + 1;
        }
    }
}

} // verus!
