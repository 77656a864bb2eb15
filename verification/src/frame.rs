//! The Segment frame model: the tagged value type every protocol message is
//! built from, together with its mathematical value and well-formedness.

use vstd::prelude::*;

use crate::num::is_float_text;

verus! {

/// Identifier for string type
pub const STRING_IDENT: u8 = 36;  // `$`

/// Identifier for integer type
pub const INTEGER_IDENT: u8 = 37;  // `%`

/// Identifier for array type
pub const ARRAY_IDENT: u8 = 42;  // `*`

/// Identifier for boolean type
pub const BOOLEAN_IDENT: u8 = 94;  // `^`

/// Identifier for null type
pub const NULL_IDENT: u8 = 45;  // `-`

/// Identifier for map type
pub const MAP_IDENT: u8 = 35;  // `#`

/// Identifier for double type
pub const DOUBLE_IDENT: u8 = 46;  // `.`

/// Identifier for error type
pub const ERROR_IDENT: u8 = 33;  // `!`

/// Represents a Segment protocol frame.
///
/// A `Double` carries the decimal text of the 64-bit float exactly as it
/// stands on the wire; turning that text into a native float value is left to
/// unverified callers, since float arithmetic has no place in this crate.
#[derive(Debug, PartialEq)]
pub enum Frame {
    /// A binary safe string
    String(Vec<u8>),
    /// A signed 64 bit integer
    Integer(i64),
    /// An ordered sequence of frames
    Array(Vec<Frame>),
    /// A boolean
    Boolean(bool),
    /// The null frame
    Null,
    /// A collection of key value pairs, stored flattened as
    /// key, value, key, value, ... (always of even length)
    Mapping(Vec<Frame>),
    /// A 64-bit float, kept as its decimal text representation
    Double(Vec<u8>),
    /// A binary safe string carrying an error message
    Error(Vec<u8>),
}

/// The mathematical value of a frame: the same tree over `Seq` instead of `Vec`.
pub ghost enum FrameVal {
    String(Seq<u8>),
    Integer(i64),
    Array(Seq<FrameVal>),
    Boolean(bool),
    Null,
    Mapping(Seq<FrameVal>),
    Double(Seq<u8>),
    Error(Seq<u8>),
}

pub open spec fn frame_view(f: Frame) -> FrameVal
    decreases f,
    via frame_view_decreases
{
    match f {
        Frame::String(data) => FrameVal::String(data@),
        Frame::Integer(i) => FrameVal::Integer(i),
        Frame::Array(items) => FrameVal::Array(frames_view(items@)),
        Frame::Boolean(b) => FrameVal::Boolean(b),
        Frame::Null => FrameVal::Null,
        Frame::Mapping(items) => FrameVal::Mapping(frames_view(items@)),
        Frame::Double(text) => FrameVal::Double(text@),
        Frame::Error(data) => FrameVal::Error(data@),
    }
}

/// The values of a sequence of frames.
pub open spec fn frames_view(items: Seq<Frame>) -> Seq<FrameVal>
    decreases items,
{
    if items.len() == 0 {
        Seq::empty()
    } else {
        seq![frame_view(items[0])] + frames_view(items.drop_first())
    }
}

#[via_fn]
proof fn frame_view_decreases(f: Frame) {
    match f {
        Frame::Array(items) => {
            assert(decreases_to!(f => items));
            assert(decreases_to!(items => items@));
        },
        Frame::Mapping(items) => {
            assert(decreases_to!(f => items));
            assert(decreases_to!(items => items@));
        },
        _ => {},
    }
}

impl View for Frame {
    type V = FrameVal;

    open spec fn view(&self) -> FrameVal {
        frame_view(*self)
    }
}

pub proof fn lemma_frames_view(items: Seq<Frame>)
    ensures
        frames_view(items).len() == items.len(),
        forall|i: int| 0 <= i < items.len() ==> frames_view(items)[i] == frame_view(
            #[trigger] items[i],
        ),
    decreases items.len(),
{
    if items.len() > 0 {
        lemma_frames_view(items.drop_first());
        assert forall|i: int| 0 <= i < items.len() implies frames_view(items)[i] == frame_view(
            items[i],
        ) by {
            if i > 0 {
                assert(items.drop_first()[i - 1] == items[i]);
                assert(frames_view(items)[i] == frames_view(items.drop_first())[i - 1]);
            }
        }
    }
}

/// Well-formedness of a frame value: every map level has an even number of
/// inner elements, every double holds valid float text, and every length that
/// is written as a decimal header on the wire fits in `usize`.  Every frame
/// built from `Vec`s and decoded text satisfies this.
pub open spec fn frame_wf(v: FrameVal) -> bool
    decreases v,
{
    match v {
        FrameVal::String(data) => data.len() <= usize::MAX,
        FrameVal::Error(data) => data.len() <= usize::MAX,
        FrameVal::Array(items) => items.len() <= usize::MAX && forall|i: int|
            0 <= i < items.len() ==> frame_wf(#[trigger] items[i]),
        FrameVal::Mapping(items) => items.len() % 2 == 0 && items.len() / 2 <= usize::MAX
            && forall|i: int| 0 <= i < items.len() ==> frame_wf(#[trigger] items[i]),
        FrameVal::Double(text) => is_float_text(text),
        _ => true,
    }
}

/// The name of a frame value's kind, used in incompatible-type errors.
pub open spec fn spec_kind_name(v: FrameVal) -> Seq<char> {
    match v {
        FrameVal::String(_) => "string"@,
        FrameVal::Integer(_) => "integer"@,
        FrameVal::Array(_) => "array"@,
        FrameVal::Boolean(_) => "boolean"@,
        FrameVal::Null => "null"@,
        FrameVal::Mapping(_) => "map"@,
        FrameVal::Double(_) => "double"@,
        FrameVal::Error(_) => "error"@,
    }
}

impl Frame {
    /// The name of this frame's kind.
    pub fn kind_name(&self) -> (r: &'static str)
        ensures
            r@ == spec_kind_name(self@),
    {
        match self {
            Frame::String(_) => "string",
            Frame::Integer(_) => "integer",
            Frame::Array(_) => "array",
            Frame::Boolean(_) => "boolean",
            Frame::Null => "null",
            Frame::Mapping(_) => "map",
            Frame::Double(_) => "double",
            Frame::Error(_) => "error",
        }
    }
}

/// Represents a frame parsing error.
#[derive(Debug, Clone, Copy, PartialEq, Eq, Structural)]
pub enum ParseFrameError {
    /// There is not enough data to parse the frame; more data must be buffered
    Incomplete,
    /// The frame is malformed
    InvalidFormat,
    /// A header that must be text is not valid UTF-8
    Utf8Error,
    /// A double header is not valid floating-point text
    ParseFloatError,
}

} // verus!
