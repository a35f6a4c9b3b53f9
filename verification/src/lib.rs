//! Rastraq: a personal daily radar for newly published technical information.
//!
//! The library holds the decisions of the radar: how submitted items are
//! hashed, how the mock provider summarises and embeds them, how candidates
//! are scored and ordered for a daily edition, which local day an edition
//! covers, how an edition is frozen, and how feedback grows the interest
//! profile.
pub mod digest;
pub mod edition;
pub mod keywords;
pub mod llm;
pub mod ranking;
pub mod text;
pub mod time;
