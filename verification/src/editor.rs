//! Editing-session state that is independent of any particular UI toolkit:
//! which view the editor shows and which tab is active.

use vstd::prelude::*;

verus! {

/// How the editing surface is presented: the raw text, the rendered
/// preview, or both side by side.
#[derive(Debug, Clone, Copy, PartialEq, Eq, Structural)]
pub enum EditorMode {
    Edit,
    Preview,
    Split,
}

/// Which tab of the editor window is active.
#[derive(Debug, Clone, Copy, PartialEq, Eq, Structural)]
pub enum EditorTab {
    Editor,
    Metadata,
    Styles,
}

} // verus!
