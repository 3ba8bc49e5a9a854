//! Excel sheet conversion helpers: header parsing, cell conversion,
//! flattened JSON keys and cell-reference parsing.

pub mod hash;
pub mod text;
pub mod str_map;
pub mod enum_helper;
pub mod config;
pub mod flatten;
pub mod json;
pub mod excel_helper;
pub mod refer;
pub mod cell_helper;
pub mod vec_helper;
pub mod generate;
pub mod path_helper;
pub mod sheet_xml;
pub mod row_laws;
pub mod converter_laws;
pub mod table_laws;
pub mod cell_laws;
pub mod custom_encode;
