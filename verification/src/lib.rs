//! Consistent-hash ring: topology construction, placement, migration planning,
//! replicated node state and cluster coordination rules.
pub mod activation;
pub mod barrier_laws;
pub mod begin;
pub mod begin_laws;
pub mod bounded;
pub mod bytes;
pub mod canonical;
pub mod canonical_laws;
pub mod change_laws;
pub mod changes;
pub mod client;
pub mod client_laws;
pub mod cluster;
pub mod coverage;
pub mod digest_laws;
pub mod drive;
pub mod drive_laws;
pub mod encoding_laws;
pub mod errors;
pub mod experiment;
pub mod failover_laws;
pub mod finish;
pub mod follow_laws;
pub mod hashing;
pub mod interval;
pub mod lease_laws;
pub mod leases;
pub mod limits;
pub mod merge;
pub mod merge_run;
pub mod migration;
pub mod migration_laws;
pub mod names;
pub mod node;
pub mod node_acks;
pub mod node_answer;
pub mod node_apply;
pub mod node_checkpoint;
pub mod node_commit;
pub mod node_control;
pub mod node_copies;
pub mod node_failover;
pub mod node_follow;
pub mod node_laws;
pub mod node_pages;
pub mod node_put;
pub mod node_queues;
pub mod node_ranges;
pub mod node_ready;
pub mod node_receipts;
pub mod node_streams;
pub mod node_takeover;
pub mod node_write;
pub mod order;
pub mod ordmap;
pub mod placement_laws;
pub mod plan_laws;
pub mod probes;
pub mod publish;
pub mod readiness;
pub mod receipts;
pub mod reconcile;
pub mod records;
pub mod recovery;
pub mod removal;
pub mod repair_laws;
pub mod repair_plan;
pub mod repairs;
pub mod replica_status;
pub mod restore;
pub mod ring;
pub mod seeding;
pub mod seeding_laws;
pub mod service_laws;
pub mod sets;
pub mod sorting;
pub mod state_laws;
pub mod status;
pub mod status_laws;
pub mod text;
pub mod topology;
pub mod topology_laws;
pub mod transfer_laws;
pub mod trial;
pub mod trial_laws;
pub mod views;
pub mod waits;
pub mod wire;
pub mod wire_data;
pub mod wire_size;
pub mod write_laws;
