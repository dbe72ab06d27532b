//! Resolution of code addresses to source locations.
//!
//! Given the debug information of one binary as plain values (symbol
//! streams, line tables, inlinee and identifier catalogs, an address
//! translator), the crate finds for each queried address the procedure
//! that contains it, the source line that covers it, and every inline
//! expansion whose code covers it.

pub mod address;
pub mod catalog;
pub mod frames;
pub mod line_info;
pub mod lines;
pub mod resolver;
pub mod scope;
pub mod symbols;

pub use address::{is_within, AddressTranslator, Region};
pub use catalog::{
    IdentifierCatalog, IdentifierEntry, IdentifierKind, InlineSite, InlineeCatalog, InlineeEntry,
};
pub use frames::{
    any_target_within, inline_frames, name_of_inlinee, procedure_frames, Frame,
    UNKNOWN_INLINE_FUNCTION,
};
pub use line_info::{collect_lines, translate_table, LineInfo};
pub use lines::{covering_line, select_rows, LineRecord, LineTable};
pub use resolver::{DebugInfo, FrameResolver, Module};
pub use scope::{is_well_formed, ScopeFrame, ScopeWalker};
pub use symbols::{InlineeId, Offset, SymbolRecord};
