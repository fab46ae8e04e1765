//! Line-anchored patches.
//!
//! A patch names the lines of a file by their numbers in its latest read, and the file by its path
//! and a tag, four hexadecimal digits of a hash of its text. Each section of a patch is a header
//! `[PATH#TAG]` and operations: `PUT` puts lines in place of others or between them, `CUT` deletes
//! lines and keeps them in a register, `REM` deletes the file and `MV` moves it.
//!
//! - [`text`], [`search`] and [`string_map`] are the ground: texts as sequences of characters,
//!   their lines, and maps from texts.
//! - [`types`] holds the edits that patches are made of.
//! - [`scan`], [`rows`] and [`parse`] read patches; [`language`] says what they mean.
//! - [`block`], [`clipboard`] and [`apply`] carry edits out on a text.
//! - [`format`], [`normalize`], [`snapshots`] and [`session`] keep track of what was read under
//!   which tag; [`recovery`] and [`seen`] deal with reads that are out of date or partial.
//! - [`patcher`] and [`batch`] decide what a patch does to files, without touching any.
//! - [`diff`], [`edit`], [`content`] and [`minimizer`] are what the tools around patches need.
//!
//! The laws say what all of this comes to, in terms of what goes in and what comes out:
//!
//! - [`grounds`], [`models`]: characters, lines, tags, and that the models leave nothing out.
//! - [`notation`], [`reading`], [`payload`]: how patches and the rows in them are read.
//! - [`structure`], [`registers`], [`arrangement`]: which lines make up a block, what registers
//!   hold, and where each line of the new text comes from.
//! - [`memory`], [`carry`], [`visibility`]: what the snapshots remember, how edits follow their
//!   lines to a later text, and which lines can be edited.
//! - [`outcome`], [`substitution`], [`display`]: what becomes of files, how a text is replaced by
//!   another, and what is shown.

pub mod apply;
pub mod arrangement;
pub mod batch;
pub mod block;
pub mod carry;
pub mod clipboard;
pub mod content;
pub mod diff;
pub mod display;
pub mod edit;
pub mod format;
pub mod grounds;
pub mod language;
pub mod memory;
pub mod minimizer;
pub mod models;
pub mod normalize;
pub mod notation;
pub mod outcome;
pub mod parse;
pub mod patcher;
pub mod payload;
pub mod reading;
pub mod recovery;
pub mod registers;
pub mod rows;
pub mod scan;
pub mod search;
pub mod seen;
pub mod session;
pub mod snapshots;
pub mod string_map;
pub mod structure;
pub mod substitution;
pub mod text;
pub mod types;
pub mod visibility;

pub use apply::{apply_edits, ApplyError};
pub use block::{resolve_block, resolve_block_edits};
pub use content::{strip_write_content, HASHLINE_TOOL_PROMPT};
pub use format::{
    compute_file_hash, format_hashline_header, format_numbered_line, format_numbered_lines,
    parse_hashline_header, split_addressable_file_lines,
};
pub use normalize::{
    detect_line_ending, normalize_to_lf, restore_line_endings, strip_bom, LineEnding,
};
pub use parse::{parse_input, parse_patch, parse_patch_streaming};
pub use patcher::{display_path, PatchError, SectionResult};
pub use scan::{parse_lid, ParseError};
pub use session::{clear_session, record_snapshot, with_session};
pub use snapshots::SnapshotStore;
pub use types::{
    ApplyResult, BlockResolution, Clipboard, Edit, FileOp, Patch, PatchSection, Snapshot,
    SNAPSHOT_MAX_BYTES,
};
