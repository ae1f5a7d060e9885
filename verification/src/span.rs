//! Span types: the intermediate labelled spans that matching produces and
//! the styled spans that normalization returns.
use vstd::prelude::*;

use crate::style::Style;

verus! {

/// A half-open byte interval with a classification label, as produced by
/// pattern matching.  Label spans may overlap arbitrarily and may duplicate
/// ranges; they are collapsed later by the interval normalizer.
#[derive(Clone, Debug)]
pub struct LabelSpan {
    pub start: usize,
    pub end: usize,
    /// The capture name, like `function`, `string` or `comment`.
    pub label: String,
}

impl LabelSpan {
    /// Build a label span over `[start, end)`.
    pub fn new(start: usize, end: usize, label: String) -> (r: LabelSpan)
        ensures
            r == (LabelSpan { start, end, label }),
    {
        LabelSpan { start, end, label }
    }
}

/// A half-open byte interval with a fully resolved style: the engine's final
/// output unit, and also the unit the interval normalizer works on.
#[derive(Clone, Copy, Debug)]
pub struct StyleSpan {
    pub start: usize,
    pub end: usize,
    pub style: Style,
}

impl StyleSpan {
    /// Build a styled span over `[start, end)`.
    pub fn new(start: usize, end: usize, style: Style) -> (r: StyleSpan)
        ensures
            r == (StyleSpan { start, end, style }),
    {
        StyleSpan { start, end, style }
    }
}

/// A position in the text as a zero-based row and column, used by edit
/// descriptors.
#[derive(Clone, Copy, Debug)]
pub struct TextPoint {
    pub row: usize,
    pub column: usize,
}

/// Describes one text edit in byte offsets: the byte range that was replaced
/// and the byte range of the replacement, with the matching row/column
/// positions.  All offsets must lie on character boundaries.
#[derive(Clone, Copy, Debug)]
pub struct EditDescriptor {
    pub start_byte: usize,
    pub old_end_byte: usize,
    pub new_end_byte: usize,
    pub start_point: TextPoint,
    pub old_end_point: TextPoint,
    pub new_end_point: TextPoint,
}

} // verus!
