//! Error type shared by the parsing and editing operations.

use vstd::prelude::*;

verus! {

/// Everything that can go wrong while parsing or editing a document.
/// Each variant carries the offending token or value where one exists.
#[derive(Debug, Clone)]
pub enum Error {
    /// No delay values found in a `delay` header line.
    DelayLineVoid(String),
    /// The global delay token is not an unsigned integer.
    GlobalDelayParsing(String),
    /// A `frame:ms` delay token is malformed.
    PerFrameDelayParsing(String),
    /// A delay for one frame is given more than once.
    PerFrameDelayDup(usize, String),
    /// A color token matches no name, index or hex form.
    ColorParsing(String),
    /// A `fg:`/`bg:` part occurs twice in one color pair.
    ColorDuplicate(String, String),
    /// A header line has a key but no value.
    HeaderKeyWithoutValue(String),
    /// A scalar header key occurs twice.
    HeaderKeyDup(String),
    /// A flag key's value is not yes/no/true/false.
    HeaderFlagKey(String),
    /// A `preview`, `width` or `height` value is not an unsigned integer.
    PreviewParsing(String),
    /// A `col` line redefines a palette character.
    ColorMapDup(String),
    /// Widths of two art components disagree.
    WidthMismatch,
    /// Heights of two art components disagree.
    HeightMismatch,
    /// Frame counts of two channels disagree.
    FramesMismatch,
    /// Header color info and body disagree.
    ColorsMismatch,
    /// A named block occurs twice.
    BlockDup(String),
    /// A block title was expected but the line is not `@`-prefixed.
    BlockExpected(String),
    /// A character outside the allow-list, by code point.
    DisallowedChar(u32),
    /// A string of this length where exactly one character was expected.
    StrToCharConversion(usize),
}

} // verus!
