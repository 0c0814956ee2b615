use vstd::prelude::*;

verus! {

pub const DEFAULT_MAX_KEY_BYTES: usize = 65_536;

pub const DEFAULT_MAX_VALUE_BYTES: usize = 8_388_608;

pub const MAX_MUTATION_ID_BYTES: usize = 128;

pub const MAX_MIGRATION_PAGE_BYTES: usize = 8_388_608;

/// Accommodates the maximum key and value plus protobuf framing and metadata.
pub const MAX_DATA_MESSAGE_BYTES: usize = 9_437_184;

/// Supports the largest legal canonical topology without constraining data values.
pub const MAX_CONTROL_MESSAGE_BYTES: usize = 67_108_864;

} // verus!
