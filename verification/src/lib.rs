//! Luminary's verified core: plain-English query parsing, the text rules that
//! read performer images out of source pages, the choice and order of image
//! URLs, the front/rear/side view rule, and the counts behind the ranking
//! metrics. Network access, JSON decoding and floating-point formulas live
//! with the caller.

pub mod eval;
pub mod pornpics;
pub mod query;
pub mod source;
pub mod stashdb;
pub mod text;
pub mod tpdb;
