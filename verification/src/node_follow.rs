//! What a follower does with the writes of an owner.
use crate::bytes::{
    be64, flag_byte, framed, put_be64, put_flag, put_framed, put_framed_text, put_text,
};
use crate::errors::{refusal, refused, Code, Status, StatusView};
use crate::hashing::{blake3_hex, blake3_hex_of};
use crate::limits::MAX_MUTATION_ID_BYTES;
use crate::node::{
    fresh_stream, DataNode, FollowerStream, NodeLimits, NodeView, StreamView,
    MAX_REPLICATION_FINGERPRINTS,
};
use crate::node_receipts::spent;
use crate::node_streams::{EntryView, ReplicationEntry};
use crate::ordmap::MapKey;
use crate::receipts::{
    ack_nodes, dedup_retained_bytes, mutation_fingerprint, mutation_print, receipt_cost, Receipt,
    ReceiptView, IDEMPOTENCY_WINDOW_NANOS,
};
use crate::records::{
    apply_internal_record, copy_bytes, with_record, Record, RecordVersion, RecordView, VersionView,
};
use crate::text::{around_number, byte_count, decimal_text, same_text, text_len};
use crate::topology_laws::law_every_token_has_a_member_owner;
use vstd::prelude::*;
use vstd::utf8::encode_utf8;

verus! {

/// The bytes of a version in a digest.
pub open spec fn version_bytes(version: Option<VersionView>) -> Seq<u8> {
    match version {
        Some(v) => be64(v.topology_epoch) + be64(v.owner_sequence) + framed(
            encode_utf8(v.owner_node_id),
        ),
        None => Seq::empty(),
    }
}

/// What identifies a write on its stream, up to its version.
pub open spec fn entry_head(e: EntryView) -> Seq<u8> {
    encode_utf8("hashring-rs:replication-entry:v1\0"@) + be64(e.topology_epoch) + framed(
        encode_utf8(e.owner_node_id),
    ) + be64(e.stream_sequence) + framed(e.key) + framed(e.value) + seq![flag_byte(e.deleted)]
}

/// What identifies a write on its stream.
pub open spec fn entry_print(e: EntryView) -> Seq<char> {
    blake3_hex(entry_head(e) + version_bytes(e.version) + framed(encode_utf8(e.mutation_id)))
}

fn put_entry_head(out: &mut Vec<u8>, entry: &ReplicationEntry)
    requires
        old(out)@.len() == 0,
    ensures
        final(out)@ == entry_head(entry@),
{
    put_text(out, "hashring-rs:replication-entry:v1\0");
    put_be64(out, entry.topology_epoch);
    put_framed_text(out, entry.owner_node_id.as_str());
    put_be64(out, entry.stream_sequence);
    put_framed(out, entry.key.as_slice());
    put_framed(out, entry.value.as_slice());
    put_flag(out, entry.deleted);
    proof {
        assert(out@ =~= entry_head(entry@));
    }
}

/// What identifies a write on its stream.
pub fn replication_fingerprint(entry: &ReplicationEntry) -> (r: String)
    ensures
        r@ == entry_print(entry@),
{
    let mut bytes: Vec<u8> = Vec::new();
    put_entry_head(&mut bytes, entry);
    let ghost head = bytes@;
    if let Some(version) = &entry.version {
        put_be64(&mut bytes, version.topology_epoch);
        put_be64(&mut bytes, version.owner_sequence);
        put_framed_text(&mut bytes, version.owner_node_id.as_str());
    }
    proof {
        assert(bytes@ =~= head + version_bytes(entry@.version));
    }
    put_framed_text(&mut bytes, entry.mutation_id.as_str());
    blake3_hex_of(bytes.as_slice())
}

/// What is wrong with a replicated write by itself, if anything.
pub open spec fn entry_fault(limits: NodeLimits, e: EntryView) -> Option<StatusView> {
    if e.stream_sequence == 0 {
        Some(
            refusal(
                Code::InvalidArgument,
                "replication stream sequence must be greater than zero"@,
            ),
        )
    } else if e.mutation_id.len() == 0 || byte_count(e.mutation_id) > MAX_MUTATION_ID_BYTES {
        Some(
            refusal(
                Code::InvalidArgument,
                "mutation id must contain 1 to "@ + decimal_text(128) + " bytes"@,
            ),
        )
    } else if e.key.len() == 0 || e.key.len() > limits.max_key_bytes {
        Some(refusal(Code::InvalidArgument, "replication key size is invalid"@))
    } else if e.value.len() > limits.max_value_bytes {
        Some(refusal(Code::ResourceExhausted, "replication value exceeds the node limit"@))
    } else if e.deleted && e.value.len() > 0 {
        Some(refusal(Code::InvalidArgument, "deleted replication entry must omit its value"@))
    } else if e.version is None {
        Some(refusal(Code::InvalidArgument, "replication entry omitted version"@))
    } else if e.version->0.topology_epoch != e.topology_epoch || e.version->0.owner_node_id
        != e.owner_node_id {
        Some(
            refusal(
                Code::FailedPrecondition,
                "replication entry version does not match its stream authority"@,
            ),
        )
    } else {
        None
    }
}

/// Checks a replicated write by itself.
fn check_entry(limits: &NodeLimits, e: &ReplicationEntry) -> (r: Result<(), Status>)
    ensures
        refused(r) == entry_fault(*limits, e@),
{
    if e.stream_sequence == 0 {
        return Err(
            Status::new(
                Code::InvalidArgument,
                "replication stream sequence must be greater than zero",
            ),
        );
    }
    if e.mutation_id.as_str().is_empty() || text_len(e.mutation_id.as_str())
        > MAX_MUTATION_ID_BYTES {
        let message = around_number("mutation id must contain 1 to ", 128, " bytes");
        return Err(Status { code: Code::InvalidArgument, message: message });
    }
    if e.key.len() == 0 || e.key.len() > limits.max_key_bytes {
        return Err(Status::new(Code::InvalidArgument, "replication key size is invalid"));
    }
    if e.value.len() > limits.max_value_bytes {
        return Err(
            Status::new(Code::ResourceExhausted, "replication value exceeds the node limit"),
        );
    }
    if e.deleted && e.value.len() > 0 {
        return Err(
            Status::new(Code::InvalidArgument, "deleted replication entry must omit its value"),
        );
    }
    match &e.version {
        None => Err(Status::new(Code::InvalidArgument, "replication entry omitted version")),
        Some(version) => if version.topology_epoch != e.topology_epoch || !same_text(
            version.owner_node_id.as_str(),
            e.owner_node_id.as_str(),
        ) {
            Err(
                Status::new(
                    Code::FailedPrecondition,
                    "replication entry version does not match its stream authority",
                ),
            )
        } else {
            Ok(())
        },
    }
}

/// What a follower makes of a write, before it applies it.
pub enum Standing {
    Refused(StatusView),
    /// It was applied before, or a snapshot holds it.
    Known,
    Next,
}

/// What a follower makes of a write from where its stream stands.
pub open spec fn standing(stream: StreamView, e: EntryView) -> Standing {
    let known = stream.fingerprints.contains_key(e.stream_sequence);
    let expected = if stream.applied_sequence == u64::MAX {
        u64::MAX
    } else {
        (stream.applied_sequence + 1) as u64
    };
    if e.stream_sequence <= stream.applied_sequence {
        if (known && stream.fingerprints[e.stream_sequence] == entry_print(e)) || (!known
            && e.stream_sequence <= stream.checkpoint_sequence) {
            Standing::Known
        } else {
            Standing::Refused(
                refusal(
                    Code::AlreadyExists,
                    "replication stream sequence conflicts with an applied entry"@,
                ),
            )
        }
    } else if e.stream_sequence != expected {
        Standing::Refused(
            refusal(
                Code::Aborted,
                "replication gap: expected sequence "@ + decimal_text(expected as nat)
                    + ", received "@ + decimal_text(e.stream_sequence as nat) + ""@,
            ),
        )
    } else if e.version->0.owner_sequence <= stream.last_owner_sequence {
        Standing::Refused(
            refusal(
                Code::FailedPrecondition,
                "replication record version did not advance the owner sequence"@,
            ),
        )
    } else {
        Standing::Next
    }
}

/// A stream after its next write.
pub open spec fn advanced_stream(stream: StreamView, e: EntryView) -> StreamView {
    let prints = stream.fingerprints.insert(e.stream_sequence, entry_print(e));
    StreamView {
        applied_sequence: e.stream_sequence,
        last_owner_sequence: e.version->0.owner_sequence,
        fingerprints: if e.stream_sequence > MAX_REPLICATION_FINGERPRINTS {
            prints.remove((e.stream_sequence - MAX_REPLICATION_FINGERPRINTS) as u64)
        } else {
            prints
        },
        ..stream
    }
}

impl NodeView {
    /// Why this node does not take this write from its owner, if it does not.
    pub open spec fn authority_fault(self, e: EntryView) -> Option<StatusView> {
        let token = self.token(e.key);
        let r = self.topology.replicas(token);
        if e.topology_epoch != self.epoch() {
            Some(
                refusal(
                    Code::FailedPrecondition,
                    "replication epoch "@ + decimal_text(e.topology_epoch as nat)
                        + " does not match installed epoch "@ + decimal_text(self.epoch() as nat)
                        + ""@,
                ),
            )
        } else if self.topology.owner_id(token) != e.owner_node_id {
            Some(
                refusal(
                    Code::FailedPrecondition,
                    "replication entry was not issued by the current owner"@,
                ),
            )
        } else if !r.subrange(1, r.len() as int).contains(self.node_id) {
            Some(
                refusal(
                    Code::FailedPrecondition,
                    "this node is not a desired follower for the mutation"@,
                ),
            )
        } else {
            None
        }
    }

    /// The stream of an owner.
    pub open spec fn stream_of(self, e: EntryView) -> StreamView {
        let k = (e.topology_epoch, e.owner_node_id);
        if self.follower_streams.contains_key(k) {
            self.follower_streams[k]
        } else {
            fresh_stream()
        }
    }

    /// The node with a stream for this owner.
    pub open spec fn with_stream(self, e: EntryView) -> NodeView {
        NodeView {
            follower_streams: self.follower_streams.insert(
                (e.topology_epoch, e.owner_node_id),
                self.stream_of(e),
            ),
            ..self
        }
    }

    /// What the receipt of a replicated write costs.
    pub open spec fn follower_cost(self, e: EntryView) -> nat {
        receipt_cost(e.mutation_id, e.key.len(), byte_count(e.version->0.owner_node_id))
    }

    /// The receipt of a replicated write.
    pub open spec fn follower_receipt(self, e: EntryView, now: u64) -> ReceiptView {
        ReceiptView {
            key: e.key,
            fingerprint: mutation_print(e.key, e.value, e.deleted),
            version: e.version->0,
            deleted: e.deleted,
            retained_bytes: self.follower_cost(e) as usize,
            expires_at: (now + IDEMPOTENCY_WINDOW_NANOS) as u64,
            required_acks: Seq::empty(),
        }
    }

    /// The node after the next write of a stream.
    pub open spec fn followed(self, e: EntryView, now: u64) -> NodeView {
        NodeView {
            records: with_record(
                self.records,
                e.key,
                RecordView { value: e.value, version: e.version->0, deleted: e.deleted },
            ),
            follower_streams: self.follower_streams.insert(
                (e.topology_epoch, e.owner_node_id),
                advanced_stream(self.stream_of(e), e),
            ),
            receipts: self.receipts.insert(e.mutation_id, self.follower_receipt(e, now)),
            ..self
        }
    }

    /// Why the next write of a stream finds no place among the receipts, if it does not.
    pub open spec fn receipt_fault(self, e: EntryView) -> Option<StatusView> {
        if self.receipts.contains_key(e.mutation_id) {
            Some(
                refusal(Code::AlreadyExists, "replication stream reused a live mutation ID"@),
            )
        } else if spent(self.receipts) + self.follower_cost(e) > self.limits.max_dedup_bytes {
            Some(refusal(Code::ResourceExhausted, "follower mutation retry window is full"@))
        } else {
            None
        }
    }

    /// The answer to a replicated write and the node after it.
    pub open spec fn replicated(self, e: EntryView, now: u64) -> (Result<u64, StatusView>, NodeView) {
        if entry_fault(self.limits, e) is Some {
            (Err(entry_fault(self.limits, e)->0), self)
        } else if self.authority_fault(e) is Some {
            (Err(self.authority_fault(e)->0), self)
        } else {
            let n = self.with_stream(e);
            let p = n.purged(now);
            match standing(self.stream_of(e), e) {
                Standing::Refused(s) => (Err(s), n),
                Standing::Known => (Ok(self.stream_of(e).applied_sequence), n),
                Standing::Next => match p.receipt_fault(e) {
                    Some(s) => (
                        Err(s),
                        if s.code is ResourceExhausted {
                            NodeView {
                                follower_dedup_rejections: if p.follower_dedup_rejections
                                    < u64::MAX {
                                    (p.follower_dedup_rejections + 1) as u64
                                } else {
                                    u64::MAX
                                },
                                ..p
                            }
                        } else {
                            p
                        },
                    ),
                    None => (Ok(e.stream_sequence), p.followed(e, now)),
                },
            }
        }
    }
}

/// The answer to a call as what it stands for.
pub open spec fn plainly<T>(r: Result<T, Status>) -> Result<T, StatusView> {
    match r {
        Ok(v) => Ok(v),
        Err(s) => Err(s@),
    }
}

impl DataNode {
    /// Checks that this node takes this write from its owner.
    fn check_authority(&self, entry: &ReplicationEntry) -> (r: Result<(), Status>)
        requires
            self.wf(),
        ensures
            refused(r) == self@.authority_fault(entry@),
            r is Ok ==> self@.topology.is_member(entry@.owner_node_id),
    {
        let epoch = self.topology.epoch;
        if entry.topology_epoch != epoch {
            let before = around_number(
                "replication epoch ",
                entry.topology_epoch,
                " does not match installed epoch ",
            );
            let message = around_number(before.as_str(), epoch, "");
            return Err(Status { code: Code::FailedPrecondition, message: message });
        }
        let token = self.topology.key_token(entry.key.as_slice());
        proof {
            law_every_token_has_a_member_owner(self.topology@, token);
        }
        let owned_here = match self.topology.owner_for_token(token) {
            Ok(owner) => same_text(owner.node_id.as_str(), entry.owner_node_id.as_str()),
            Err(_) => false,
        };
        if !owned_here {
            return Err(
                Status::new(
                    Code::FailedPrecondition,
                    "replication entry was not issued by the current owner",
                ),
            );
        }
        let followers = match self.topology.replica_node_ids_for_token(token) {
            Ok(replicas) => crate::text::own_from(&replicas, 1),
            Err(_) => Vec::new(),
        };
        if !crate::text::list_has(&followers, self.node_id.as_str()) {
            return Err(
                Status::new(
                    Code::FailedPrecondition,
                    "this node is not a desired follower for the mutation",
                ),
            );
        }
        Ok(())
    }

    /// Opens the stream of an owner where it is not open.
    fn open_stream(&mut self, entry: &ReplicationEntry)
        requires
            old(self).wf(),
        ensures
            final(self).wf(),
            final(self).dedup_peak_bytes == old(self).dedup_peak_bytes,
            final(self).receipts == old(self).receipts,
            final(self)@ == old(self)@.with_stream(entry@),
            final(self)@.follower_streams.contains_key(
                (entry@.topology_epoch, entry@.owner_node_id),
            ),
    {
        let ghost start = *self;
        let stream = (entry.topology_epoch, entry.owner_node_id.clone());
        if !self.follower_streams.contains(&stream) {
            let _ = self.follower_streams.insert(stream, FollowerStream::new());
        }
        proof {
            assert(self@.follower_streams =~= start@.with_stream(entry@).follower_streams);
            assert(self@ =~= start@.with_stream(entry@));
        }
    }

    /// Judges a write from where its stream stands.
    fn judge_entry(&self, entry: &ReplicationEntry, fingerprint: &String) -> (r: Result<
        Option<u64>,
        Status,
    >)
        requires
            entry@.version is Some,
            fingerprint@ == entry_print(entry@),
            self@.follower_streams.contains_key((entry@.topology_epoch, entry@.owner_node_id)),
        ensures
            match standing(self@.stream_of(entry@), entry@) {
                Standing::Refused(s) => r is Err && r->Err_0@ == s,
                Standing::Known => r == Ok::<Option<u64>, Status>(
                    Some(self@.stream_of(entry@).applied_sequence),
                ),
                Standing::Next => r == Ok::<Option<u64>, Status>(None),
            },
    {
        let key = (entry.topology_epoch, entry.owner_node_id.clone());
        let stream = match self.follower_streams.get(&key) {
            Some(stream) => stream,
            None => {
                return Ok(None);
            },
        };
        proof {
            assert(stream@ == self@.stream_of(entry@));
        }
        if entry.stream_sequence <= stream.applied_sequence {
            let known = match stream.fingerprints.get(&entry.stream_sequence) {
                Some(existing) => same_text(existing.as_str(), fingerprint.as_str()),
                None => entry.stream_sequence <= stream.checkpoint_sequence,
            };
            if known {
                return Ok(Some(stream.applied_sequence));
            }
            return Err(
                Status::new(
                    Code::AlreadyExists,
                    "replication stream sequence conflicts with an applied entry",
                ),
            );
        }
        let expected = stream.applied_sequence.saturating_add(1);
        if entry.stream_sequence != expected {
            let before = around_number("replication gap: expected sequence ", expected, ", received ");
            let message = around_number(before.as_str(), entry.stream_sequence, "");
            return Err(Status { code: Code::Aborted, message: message });
        }
        if let Some(version) = &entry.version {
            if version.owner_sequence <= stream.last_owner_sequence {
                return Err(
                    Status::new(
                        Code::FailedPrecondition,
                        "replication record version did not advance the owner sequence",
                    ),
                );
            }
        }
        Ok(None)
    }

    /// Moves a stream on by a write.
    fn advance_stream(&mut self, entry: &ReplicationEntry, fingerprint: String)
        requires
            old(self).wf(),
            entry@.version is Some,
            fingerprint@ == entry_print(entry@),
            old(self)@.follower_streams.contains_key(
                (entry@.topology_epoch, entry@.owner_node_id),
            ),
        ensures
            final(self).wf(),
            final(self).dedup_peak_bytes == old(self).dedup_peak_bytes,
            final(self).receipts == old(self).receipts,
            final(self)@ == (NodeView {
                follower_streams: old(self)@.follower_streams.insert(
                    (entry@.topology_epoch, entry@.owner_node_id),
                    advanced_stream(old(self)@.stream_of(entry@), entry@),
                ),
                ..old(self)@
            }),
    {
        let ghost start = *self;
        let key = (entry.topology_epoch, entry.owner_node_id.clone());
        let owner_sequence = match &entry.version {
            Some(version) => version.owner_sequence,
            None => 0,
        };
        if let Some(stream) = self.follower_streams.get_mut(&key) {
            let ghost before = stream@;
            stream.applied_sequence = entry.stream_sequence;
            stream.last_owner_sequence = owner_sequence;
            let _ = stream.fingerprints.insert(entry.stream_sequence, fingerprint);
            if entry.stream_sequence > MAX_REPLICATION_FINGERPRINTS {
                let oldest = entry.stream_sequence - MAX_REPLICATION_FINGERPRINTS;
                let _ = stream.fingerprints.remove(&oldest);
            }
            proof {
                assert(stream@.fingerprints =~= advanced_stream(before, entry@).fingerprints);
                assert(stream@ =~= advanced_stream(before, entry@));
            }
        }
        proof {
            let n = NodeView {
                follower_streams: start@.follower_streams.insert(
                    key.id(),
                    advanced_stream(start@.stream_of(entry@), entry@),
                ),
                ..start@
            };
            assert(self@.follower_streams =~= n.follower_streams);
            assert(self@ =~= n);
        }
    }

    /// Applies the next write of an owner's stream. A write that was applied before, or that
    /// a verified snapshot holds, is acknowledged and changes nothing.
    #[verifier::rlimit(60)]
    pub fn replicate_mutation(&mut self, entry: ReplicationEntry, now: u64) -> (r: Result<
        u64,
        Status,
    >)
        requires
            old(self).wf(),
            now + IDEMPOTENCY_WINDOW_NANOS <= u64::MAX,
        ensures
            final(self).wf(),
            final(self).peak_noted(*old(self)),
            old(self).receipts_in_room() ==> final(self).receipts_in_room(),
            plainly(r) == old(self)@.replicated(entry@, now).0,
            final(self)@ == old(self)@.replicated(entry@, now).1,
    {
        let ghost start = *self;
        let ghost e = entry@;
        if let Err(status) = check_entry(&self.limits, &entry) {
            return Err(status);
        }
        if let Err(status) = self.check_authority(&entry) {
            return Err(status);
        }
        proof {
            crate::migration::lemma_member_bounds(start@.topology, e.owner_node_id);
        }
        let fingerprint = replication_fingerprint(&entry);
        self.open_stream(&entry);
        let ghost opened = *self;
        match self.judge_entry(&entry, &fingerprint) {
            Err(status) => {
                return Err(status);
            },
            Ok(Some(applied)) => {
                return Ok(applied);
            },
            Ok(None) => {},
        }
        self.purge_expired_dedup(now);
        let ghost p = opened@.purged(now);
        proof {
            assert(p.follower_streams == opened@.follower_streams);
            assert(p.stream_of(e) == start@.stream_of(e));
            assert(p.limits == start@.limits);
        }
        if self.receipts.entries.contains(&entry.mutation_id) {
            return Err(
                Status::new(Code::AlreadyExists, "replication stream reused a live mutation ID"),
            );
        }
        let cost = dedup_retained_bytes(
            entry.mutation_id.as_str(),
            entry.key.len(),
            text_len(entry.owner_node_id.as_str()),
        );
        if self.receipts.bytes > self.limits.max_dedup_bytes || cost > self.limits.max_dedup_bytes
            - self.receipts.bytes {
            self.follower_dedup_rejections = self.follower_dedup_rejections.saturating_add(1);
            return Err(
                Status::new(Code::ResourceExhausted, "follower mutation retry window is full"),
            );
        }
        self.advance_stream(&entry, fingerprint);
        let version = match &entry.version {
            Some(version) => version.clone(),
            None => RecordVersion {
                topology_epoch: 0,
                owner_sequence: 0,
                owner_node_id: String::new(),
            },
        };
        let receipt = Receipt {
            key: copy_bytes(entry.key.as_slice()),
            fingerprint: mutation_fingerprint(
                entry.key.as_slice(),
                entry.value.as_slice(),
                entry.deleted,
            ),
            version: version.clone(),
            deleted: entry.deleted,
            retained_bytes: cost,
            expires_at: now + IDEMPOTENCY_WINDOW_NANOS,
            required_acks: Vec::new(),
        };
        let ghost noted = receipt@;
        let record = Record { value: entry.value, version: version, deleted: entry.deleted };
        apply_internal_record(&mut self.records, entry.key, record);
        self.receipts.add(entry.mutation_id, receipt);
        if self.dedup_peak_bytes < self.receipts.bytes {
            self.dedup_peak_bytes = self.receipts.bytes;
        }
        proof {
            assert(noted.required_acks =~= Seq::empty());
            assert(noted =~= p.follower_receipt(e, now));
            assert(ack_nodes(noted.required_acks) =~= Seq::empty());
            assert(noted.covered());
            assert(self@.receipts =~= p.receipts.insert(e.mutation_id, noted));
            assert(self@ =~= p.followed(e, now));
        }
        Ok(entry.stream_sequence)
    }
}

} // verus!
