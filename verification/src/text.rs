//! Which font face draws a run of text.
use vstd::prelude::*;

verus! {

/// The faces text is drawn in.
#[derive(Debug, Clone, Copy, PartialEq, Eq, Structural)]
pub enum Face {
    Regular,
    Bold,
    Italic,
    BoldItalic,
    Mono,
}

/// The face for a run: monospace wins over the other styles; otherwise bold
/// and italic combine.
pub open spec fn face_of(bold: bool, italic: bool, monospace: bool) -> Face {
    if monospace {
        Face::Mono
    } else if bold && italic {
        Face::BoldItalic
    } else if bold {
        Face::Bold
    } else if italic {
        Face::Italic
    } else {
        Face::Regular
    }
}

/// The face for a run with the given styles.
pub fn face_for(bold: bool, italic: bool, monospace: bool) -> (r: Face)
    ensures
        r == face_of(bold, italic, monospace),
{
    match (monospace, bold, italic) {
        (true, _, _) => Face::Mono,
        (false, true, true) => Face::BoldItalic,
        (false, true, false) => Face::Bold,
        (false, false, true) => Face::Italic,
        (false, false, false) => Face::Regular,
    }
}

} // verus!
