//! The containers that the workloads are run on.

pub mod jump_rope;
pub mod ropey_rope;
pub mod crop_rope;
pub mod gap_buffer;
pub mod plain_text;
