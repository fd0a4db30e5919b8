//! Decision logic of a bandwidth limiter: packet classification, flow
//! bookkeeping, per-process rules and token-bucket shaping, with the
//! contracts that Verus proves of each.

pub mod assoc;
pub mod flow_table;
pub mod packet;
pub mod recv_policy;
pub mod rules;
pub mod shaper;
pub mod text;
pub mod token_bucket;
