//! Load and continuity testing: what one subscription looked like on one stream,
//! how the streams compare, and what that says of the proxy between them.

pub mod keystats;
pub mod compare;
pub mod compare_laws;
pub mod verdict_laws;
pub mod measure_laws;
pub mod report_laws;
pub mod maps;
pub mod plan;
pub mod report;
pub mod stream;
pub mod summary;
