//! A structured document core: a tree of typed block nodes with styled text
//! runs, a line-oriented markup parser and its serializer, a bidirectional
//! text shaping pipeline for mixed LTR/RTL scripts, and style resolution
//! with structural defaults.

pub mod chars;
pub mod data;
pub mod editor;
pub mod export;
pub mod parser;
pub mod pdx;
pub mod pdx_text;
pub mod theme;
pub mod roundtrip;

pub use data::Color;
pub use data::Direction;
pub use data::EdgeInsets;
pub use data::FontWeight;
pub use data::ListItem;
pub use data::Metadata;
pub use data::Node;
pub use data::PdxDocument;
pub use data::Style;
pub use data::StyleSheet;
pub use data::TextAlign;
pub use data::TextRun;
pub use data::create_sample_document;
pub use editor::EditorMode;
pub use editor::EditorTab;
pub use export::PdfOp;
pub use export::display_runs;
pub use export::export_as_html;
pub use export::export_as_png;
pub use export::image_placeholder;
pub use export::pdf_text_ops;
pub use export::runs_rtl;
pub use parser::parse_content;
pub use parser::serialize_content;
pub use pdx::PdxFile;
pub use pdx::PdxMeta;
pub use pdx_text::detect_direction;
pub use pdx_text::is_arabic;
pub use pdx_text::pdx_text;
pub use theme::AppTheme;
