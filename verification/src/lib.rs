//! Core logic of a terminal watcher that repeatedly runs shell commands,
//! extracts the numeric tokens from every output line, tracks how each
//! number changes between passes, and renders values and deltas with
//! selectable styles that can be cycled interactively.

mod assoc;
mod dwatch;
mod exec;
mod options;
mod persist;
mod ranges;
mod render;
mod styles;
mod text;

pub use dwatch::{complement_ranges, lemma_reconstruct_line, lemma_scan_reconstructs, parse_i64_str, parse_numbers, parse_strings, Dwatch, LineError, LineNumbers};
pub use exec::{interpret_command_outcome, join_cmds, next_deadline, normalize_cmd, normalize_cmds, trim_str, CommandError, CommandOutcome};
pub use options::Options;
pub use persist::{lemma_parse_record_complete, lemma_rejected_line_is_no_record, lemma_save_load_round_trip, lemma_save_scan_wf, load_style_map, parse_record, save_style_map, serialize_record, split_lines, PersistenceError, StyleRecord};
pub use ranges::RangeParser;
pub use render::{banner_head, format_number, render_number, style_kind, writers, StyleKind, WriterBox};
pub use styles::{lemma_cycle_focus_iterates, Focus, FocusController, SignalEvent, Styles, FOCUS_LIFETIME_LIMIT, NUM_STYLES};
pub use text::{chunks_fingerprint, lemma_fingerprint_of_equal_chunks};
