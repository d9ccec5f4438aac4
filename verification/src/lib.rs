//! An incremental computation engine over collections of timestamped,
//! signed-multiplicity updates.
//!
//! A base relation evolves step by step under a caller-driven logical clock;
//! the engine maintains a derived relation (a self-join producing the
//! "grandparent" relation from "parent") and reports only the *changes* to the
//! derived relation, each change tagged with the logical time at which it
//! happens and a signed multiplicity ("diff") saying whether a tuple appeared
//! or disappeared, and how many times.
//!
//! The pieces, leaves first:
//! - [`update`]: the `Update` triple `(record, time, diff)` and the net-diff
//!   semantics of a sequence of updates.
//! - [`collection`]: an append-structured change log of updates.
//! - [`session`]: the time-stepped input front door that stages inserts and
//!   removals at a current time and flushes them on advance.
//! - [`join`]: the bilinear join operator on change logs.
//! - [`consolidate`]: the compaction operator that sums diffs per
//!   `(record, time)` group and drops net-zero groups.
//! - [`laws`]: the algebraic laws the operators obey, stated and proved.
//! - [`engine`]: the deterministic end-to-end scenario wired from the above.

pub mod update;
pub mod collection;
pub mod session;
pub mod join;
pub mod consolidate;
pub mod laws;
pub mod engine;

pub use engine::run;
