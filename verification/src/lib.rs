//! Cluster state aggregation engine for a distributed log broker.
//!
//! The crate contains the verified core of a broker-introspection tool:
//! a binary decoder for consumer-group partition assignments, the
//! classification algorithm that turns committed offsets and live
//! assignments into activity reports, and the offset arithmetic behind a
//! bounded "recent messages" fetch. All broker I/O lives outside this
//! crate; the functions here take and return plain values.

pub mod activity;
pub mod codec;
pub mod connection;
pub mod fetch;
pub mod groups;
pub mod probe;
pub mod text;
pub mod topics;
pub mod utils;

pub use activity::ActivityEvent;
pub use activity::GroupState;
pub use codec::DecodeError;
pub use codec::KafkaGroupMemberAssignment;
pub use connection::SaslConfig;
pub use fetch::FetchError;
pub use fetch::KafkaMessageResponse;
pub use fetch::RawHeader;
pub use fetch::RawMessage;
pub use fetch::SeekOutcome;
pub use fetch::SeekStep;
pub use fetch::SeekTarget;
pub use groups::CatalogError;
pub use groups::KafkaGroup;
pub use groups::KafkaGroupMember;
pub use groups::KafkaGroupResponse;
pub use groups::RawGroup;
pub use groups::RawGroupMember;
pub use probe::CommittedOffset;
pub use probe::ProbeError;
pub use probe::TopicPartitions;
pub use topics::AggregateError;
pub use topics::GroupProbe;
pub use topics::TopicResponse;
pub use topics::TopicWatermarkResponse;
pub use utils::Environment;
pub use utils::Extras;
