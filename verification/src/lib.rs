//! The text processing behind `umber`, a `cat` with syntax highlighting:
//! selecting and squeezing lines, numbering them, showing unprintable
//! characters, reading line ranges, file specifications and `--style`
//! components, deciding colour and the header between files, choosing the
//! pager, buffering output, and the per-line decisions taken while
//! highlighted text is written.

pub mod changes;
pub mod chars;
pub mod decorate;
pub mod emit;
pub mod highlight;
pub mod language;
pub mod lines;
pub mod numbering;
pub mod options;
pub mod pager;
pub mod range;
pub mod stream;
pub mod style;
pub mod text;
pub mod unprintable;

pub use changes::{
    apply_hunk, line_changes_from_diff, parse_hunk_header, Hunk, LineChange,
};
pub use decorate::{decoration_margin, MarginKind, MarginPiece};
pub use emit::{
    emit_bytes, render_unhighlighted, wants_git_changes, EmitOutcome, EmitSettings, HighlightJob,
};
pub use highlight::{
    current_style_key, decoration_width, effective_decorations, highlight_line_count,
    source_lines, LineAction, LineTracker, SourceLine,
};
pub use language::{detected_file_type, injection_names, language_name};
pub use lines::{
    count_lines_bytes, prepare_bytes, slice_bytes_by_line_range, squeeze_blank_lines_bytes,
    LineRange,
};
pub use numbering::{line_number_width, number_plain_text, write_numbered_bytes, write_prefix};
pub use options::{
    check_pager, color_enabled, emit_settings, file_header, highlight_queries, input_paths,
    ColorWhen, HighlightQueries, InputPlan, InputWalk, OutputError,
};
pub use pager::{
    format_command, less_arg_supports_raw_control_chars, less_supports_raw_control_chars,
    pager_command_from_words, pager_uses_less, resolve_pager_command_from_env, PagerError,
};
pub use range::{
    display_name_for_spec, is_stdin_path, parse_file_spec, parse_line_range,
    parse_line_range_arg, parse_line_range_suffix, parse_usize, split_line_range, FileSpec,
    LineSpecError,
};
pub use stream::{StreamBuffer, STREAM_OUTPUT_BUFFER_BYTES, STREAM_OUTPUT_FLUSH_BYTES};
pub use style::{parse_style_components, DecorationConfig, StyleConfig};
pub use unprintable::show_unprintable;
