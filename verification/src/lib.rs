//! What every byte of an ELF file means, and what the loader does with it.
//!
//! Parsing keeps the offsets. It produces a [`Coverage`]: a flat list of [`Claim`]s, each a
//! [`Span`] of the file with a meaning, arranged into a tree by parent links and indexed for
//! point queries. Interior claims nest freely, but the leaves are an exact partition: every
//! byte of the file belongs to exactly one of them, and [`accounted`] proves it of every
//! file that parses. What the claims and the summary say of the bytes is in [`explained`] and
//! [`decoded`].
//!
//! From the parse follow the memory image and its pages ([`model`], [`residency`],
//! [`state`]), the steps of the load ([`timeline`]), the closure of libraries ([`load`]),
//! the comparison with an observed load ([`trace`], [`narrated`], [`observed`],
//! [`compare`]), the findings of an audit ([`audit`]), and the pictures and tables
//! ([`render`], [`report`]).

pub mod accounted;
pub mod audit;
pub mod claim;
pub mod closure_report;
pub mod columns;
pub mod compare;
pub mod coverage;
pub mod decoded;
pub mod elf;
pub mod explained;
pub mod index;
pub mod layout;
pub mod load;
pub mod markup;
pub mod model;
pub mod narrated;
pub mod observed;
pub mod order;
pub mod parse;
pub mod partition;
pub mod player;
pub mod reader;
pub mod render;
pub mod report;
pub mod residency;
pub mod scan;
pub mod session;
pub mod span;
pub mod state;
pub mod tally;
pub mod text;
pub mod timeline;
pub mod trace;
pub mod trace_json;

pub use claim::{Claim, ClaimId, ClaimKind, PadReason, RelocTableKind, Value, VersionTableKind};
pub use coverage::{Coverage, CoverageBuilder, CoverageError, CoverageStats};
pub use index::IntervalIndex;
pub use parse::{parse, ParseError, Parsed, Summary};
pub use span::{FileId, Span};
