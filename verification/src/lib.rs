//! XMSS hash-based signature verification logic, generic over a hash backend.

pub mod backend;
pub mod glue;
pub mod glue_hidden;
pub mod hiding;
pub mod native;
pub mod params;
pub mod witness;
pub mod ztime;
