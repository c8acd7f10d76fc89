//! Sparse grids of text cells, rendered as tables framed with box-drawing
//! glyphs, and the chip records that are shown in them.

pub mod chip;
pub mod render;
pub mod table;

pub use chip::{
    find_chip, list_chips, Classname, Description, GithubRepo, HeaderSource, Name, ProductPage, XChip, XChipRegistry,
};
pub use table::{Index, SheetModel, Spreadsheet, TableColumn};
