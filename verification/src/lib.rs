//! Core of a modal terminal text editor: a character buffer segmented into
//! `\n`-terminated lines, a multi-cursor selection model, insert/delete
//! operations that keep every selection consistent, and viewport scrolling.

pub mod editor;
pub mod filebuffer;
pub mod laws;
pub mod storage;
pub mod terminal;
pub mod text;

pub use editor::Mode;
pub use filebuffer::Direction;
pub use filebuffer::FileBuffer;
pub use filebuffer::Position;
pub use filebuffer::Selection;
pub use terminal::Size;
pub use terminal::Terminal;

pub use text::line_at;
pub use text::line_count;
pub use text::line_len;
pub use text::line_start;
