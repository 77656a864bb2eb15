//! The value conversion layer and the command builder: a bidirectional
//! mapping between native typed values and frames, and the assembly of an
//! argument list into the single array frame a command submits.
//!
//! Numeric targets narrow from integer frames with native truncating cast
//! semantics.  Double frames carry float text, and turning that text into a
//! native float value is float work that lives outside this crate, so the
//! numeric conversions here reject double frames as incompatible.

use vstd::prelude::*;

use crate::codec::utf8_to_string;
use crate::connection::ConnectionError;
use crate::frame::Frame;
use crate::frame::FrameVal;
use crate::frame::frame_wf;
use crate::frame::frames_view;
use crate::frame::lemma_frames_view;
use crate::frame::spec_kind_name;
use vstd::slice::slice_to_vec;
use vstd::utf8::decode_utf8;
use vstd::utf8::encode_utf8;
use vstd::utf8::valid_utf8;

verus! {

/// Represents a command error.
#[derive(Debug, PartialEq)]
pub enum CommandError {
    /// The type returned by the server and the type requested are
    /// incompatible; carries the frame kind's name and the requested type's
    /// name
    IncompatibleType(&'static str, &'static str),
    /// Bytes that must be text are not valid UTF-8
    Utf8Error,
    /// An error returned by the segment server, carrying its message
    QueryError(String),
    /// A connection error
    ConnectionError(ConnectionError),
    /// A frame whose shape violates a decode invariant
    Decode,
}

/// The incompatible-type error naming the actual frame kind and the
/// requested native type.
pub open spec fn incompatible(v: FrameVal, name: Seq<char>, e: CommandError) -> bool {
    &&& e matches CommandError::IncompatibleType(a, b)
    &&& (e matches CommandError::IncompatibleType(a, b) ==> a@ == spec_kind_name(v) && b@ == name)
}

/// Used to convert a value to a Segment frame.
pub trait ToSegmentFrame {
    /// The frame value this native value maps to.
    spec fn to_frame_spec(&self) -> FrameVal;

    /// Creates a new Segment frame from the value.
    fn to_segment_frame(&self) -> (f: Frame)
        ensures
            f@ == self.to_frame_spec(),
            frame_wf(f@),
    ;
}

/// Used to create a value from a Segment frame.
pub trait FromSegmentFrame: Sized {
    /// Whether decoding this type from the frame value succeeds.
    spec fn accepts(v: FrameVal) -> bool;

    /// Relates the frame value to the decoded result.
    spec fn decodes_to(v: FrameVal, out: Self) -> bool;

    /// Pins the error reported when decoding fails.
    spec fn decode_err(v: FrameVal, e: CommandError) -> bool;

    /// Creates a new value from a Segment frame.
    fn from_segment_frame(frame: &Frame) -> (r: Result<Self, CommandError>)
        ensures
            (r is Ok) == Self::accepts(frame@),
            r matches Ok(out) ==> Self::decodes_to(frame@, out),
            r matches Err(e) ==> Self::decode_err(frame@, e),
    ;
}

impl ToSegmentFrame for u8 {
    open spec fn to_frame_spec(&self) -> FrameVal {
        FrameVal::Integer(*self as i64)
    }

    fn to_segment_frame(&self) -> (f: Frame) {
        Frame::Integer(*self as i64)
    }
}

impl ToSegmentFrame for i8 {
    open spec fn to_frame_spec(&self) -> FrameVal {
        FrameVal::Integer(*self as i64)
    }

    fn to_segment_frame(&self) -> (f: Frame) {
        Frame::Integer(*self as i64)
    }
}

impl ToSegmentFrame for u16 {
    open spec fn to_frame_spec(&self) -> FrameVal {
        FrameVal::Integer(*self as i64)
    }

    fn to_segment_frame(&self) -> (f: Frame) {
        Frame::Integer(*self as i64)
    }
}

impl ToSegmentFrame for i16 {
    open spec fn to_frame_spec(&self) -> FrameVal {
        FrameVal::Integer(*self as i64)
    }

    fn to_segment_frame(&self) -> (f: Frame) {
        Frame::Integer(*self as i64)
    }
}

impl ToSegmentFrame for u32 {
    open spec fn to_frame_spec(&self) -> FrameVal {
        FrameVal::Integer(*self as i64)
    }

    fn to_segment_frame(&self) -> (f: Frame) {
        Frame::Integer(*self as i64)
    }
}

impl ToSegmentFrame for i32 {
    open spec fn to_frame_spec(&self) -> FrameVal {
        FrameVal::Integer(*self as i64)
    }

    fn to_segment_frame(&self) -> (f: Frame) {
        Frame::Integer(*self as i64)
    }
}

impl ToSegmentFrame for u64 {
    open spec fn to_frame_spec(&self) -> FrameVal {
        FrameVal::Integer(*self as i64)
    }

    fn to_segment_frame(&self) -> (f: Frame) {
        Frame::Integer(#[verifier::truncate] (*self as i64))
    }
}

impl ToSegmentFrame for i64 {
    open spec fn to_frame_spec(&self) -> FrameVal {
        FrameVal::Integer(*self)
    }

    fn to_segment_frame(&self) -> (f: Frame) {
        Frame::Integer(*self)
    }
}

impl ToSegmentFrame for usize {
    open spec fn to_frame_spec(&self) -> FrameVal {
        FrameVal::Integer(*self as i64)
    }

    fn to_segment_frame(&self) -> (f: Frame) {
        Frame::Integer(#[verifier::truncate] (*self as i64))
    }
}

impl ToSegmentFrame for isize {
    open spec fn to_frame_spec(&self) -> FrameVal {
        FrameVal::Integer(*self as i64)
    }

    fn to_segment_frame(&self) -> (f: Frame) {
        Frame::Integer(*self as i64)
    }
}

impl ToSegmentFrame for bool {
    open spec fn to_frame_spec(&self) -> FrameVal {
        FrameVal::Boolean(*self)
    }

    fn to_segment_frame(&self) -> (f: Frame) {
        Frame::Boolean(*self)
    }
}

impl ToSegmentFrame for String {
    open spec fn to_frame_spec(&self) -> FrameVal {
        FrameVal::String(encode_utf8(self@))
    }

    fn to_segment_frame(&self) -> (f: Frame) {
        let bytes = slice_to_vec(self.as_str().as_bytes());
        proof {
            assert(bytes.len() == bytes@.len());
        }
        Frame::String(bytes)
    }
}

/// A binary safe byte string, carried as a string frame.
#[derive(Debug, Clone, PartialEq, Eq)]
pub struct Bytes(pub Vec<u8>);

impl ToSegmentFrame for Bytes {
    open spec fn to_frame_spec(&self) -> FrameVal {
        FrameVal::String(self.0@)
    }

    fn to_segment_frame(&self) -> (f: Frame) {
        let bytes = slice_to_vec(self.0.as_slice());
        proof {
            assert(bytes.len() == bytes@.len());
        }
        Frame::String(bytes)
    }
}

impl<T: ToSegmentFrame> ToSegmentFrame for Option<T> {
    open spec fn to_frame_spec(&self) -> FrameVal {
        match self {
            Some(val) => val.to_frame_spec(),
            None => FrameVal::Null,
        }
    }

    fn to_segment_frame(&self) -> (f: Frame) {
        match self {
            Some(val) => val.to_segment_frame(),
            None => Frame::Null,
        }
    }
}

/// An ordered sequence of key/value pairs, carried as a map frame by
/// flattening the entries into alternating key and value frames in order.
#[derive(Debug, Clone, PartialEq, Eq)]
pub struct Pairs<K, V>(pub Vec<(K, V)>);

/// The flattened frame values of a pair sequence.
pub open spec fn pairs_view<K: ToSegmentFrame, V: ToSegmentFrame>(pairs: Seq<(K, V)>) -> Seq<
    FrameVal,
>
    decreases pairs.len(),
{
    if pairs.len() == 0 {
        Seq::empty()
    } else {
        seq![pairs[0].0.to_frame_spec(), pairs[0].1.to_frame_spec()] + pairs_view(
            pairs.drop_first(),
        )
    }
}

proof fn lemma_pairs_view<K: ToSegmentFrame, V: ToSegmentFrame>(pairs: Seq<(K, V)>)
    ensures
        pairs_view(pairs).len() == 2 * pairs.len(),
        forall|i: int|
            0 <= i < pairs.len() ==> pairs_view(pairs)[2 * i] == (#[trigger] pairs[i]).0.to_frame_spec()
                && pairs_view(pairs)[2 * i + 1] == pairs[i].1.to_frame_spec(),
    decreases pairs.len(),
{
    if pairs.len() > 0 {
        lemma_pairs_view(pairs.drop_first());
        assert forall|i: int|
            0 <= i < pairs.len() implies pairs_view(pairs)[2 * i] == (
        #[trigger] pairs[i]).0.to_frame_spec() && pairs_view(pairs)[2 * i + 1]
            == pairs[i].1.to_frame_spec() by {
            if i > 0 {
                assert(pairs.drop_first()[i - 1] == pairs[i]);
                assert(pairs_view(pairs)[2 * i] == pairs_view(pairs.drop_first())[2 * (i - 1)]);
                assert(pairs_view(pairs)[2 * i + 1] == pairs_view(pairs.drop_first())[2 * (i - 1)
                    + 1]);
            }
        }
    }
}

impl<K: ToSegmentFrame, V: ToSegmentFrame> ToSegmentFrame for Pairs<K, V> {
    open spec fn to_frame_spec(&self) -> FrameVal {
        FrameVal::Mapping(pairs_view(self.0@))
    }

    fn to_segment_frame(&self) -> (f: Frame) {
        let mut out: Vec<Frame> = Vec::new();
        let mut i: usize = 0;
        while i < self.0.len()
            invariant
                i <= self.0@.len(),
                out@.len() == 2 * i,
                forall|j: int|
                    0 <= j < i ==> frames_view(out@)[2 * j] == (
                    #[trigger] self.0@[j]).0.to_frame_spec() && frames_view(out@)[2 * j + 1]
                        == self.0@[j].1.to_frame_spec(),
                forall|j: int| 0 <= j < out@.len() ==> frame_wf((#[trigger] out@[j])@),
            decreases self.0@.len() - i,
        {
            let key = self.0[i].0.to_segment_frame();
            let value = self.0[i].1.to_segment_frame();
            let ghost out0 = out@;
            proof {
                crate::codec::lemma_frames_view_push(out0, key);
                crate::codec::lemma_frames_view_push(out0.push(key), value);
                lemma_frames_view(out0);
            }
            out.push(key);
            out.push(value);
            proof {
                assert(out@ == out0.push(key).push(value));
                assert forall|j: int|
                    0 <= j < i + 1 implies frames_view(out@)[2 * j] == (
                #[trigger] self.0@[j]).0.to_frame_spec() && frames_view(out@)[2 * j + 1]
                    == self.0@[j].1.to_frame_spec() by {
                    assert(frames_view(out@) == frames_view(out0) + seq![key@] + seq![value@]);
                    if j < i {
                        assert(frames_view(out@)[2 * j] == frames_view(out0)[2 * j]);
                        assert(frames_view(out@)[2 * j + 1] == frames_view(out0)[2 * j + 1]);
                    }
                }
            }
            i += 1;
        }
        proof {
            lemma_pairs_view(self.0@);
            lemma_frames_view(out@);
            assert(self.0.len() == self.0@.len());
            assert forall|j: int|
                0 <= j < 2 * self.0@.len() implies frames_view(out@)[j] == pairs_view(self.0@)[j] by {
                let k = j / 2;
                assert(0 <= k < self.0@.len());
                assert(self.0@[k] == self.0@[k]);
                if j % 2 == 0 {
                    assert(j == 2 * k);
                } else {
                    assert(j == 2 * k + 1);
                }
            }
            assert(frames_view(out@) =~= pairs_view(self.0@));
            assert forall|m: int| 0 <= m < frames_view(out@).len() implies frame_wf(
                #[trigger] frames_view(out@)[m],
            ) by {
                assert(frames_view(out@)[m] == crate::frame::frame_view(out@[m]));
                assert(frame_wf(out@[m]@));
            }
        }
        Frame::Mapping(out)
    }
}

/// Two pair sequences that agree on their first `k` entries flatten to the
/// same first `2k` frame values.
proof fn lemma_pairs_view_prefix<K: ToSegmentFrame, V: ToSegmentFrame>(
    a: Seq<(K, V)>,
    b: Seq<(K, V)>,
    k: int,
)
    requires
        0 <= k <= a.len(),
        k <= b.len(),
        forall|j: int| 0 <= j < k ==> a[j] == b[j],
    ensures
        forall|j: int| 0 <= j < 2 * k ==> pairs_view(a)[j] == pairs_view(b)[j],
{
    lemma_pairs_view(a);
    lemma_pairs_view(b);
    assert forall|j: int| 0 <= j < 2 * k implies pairs_view(a)[j] == pairs_view(b)[j] by {
        let i = j / 2;
        assert(a[i] == b[i]);
        if j % 2 == 0 {
            assert(j == 2 * i);
        } else {
            assert(j == 2 * i + 1);
        }
    }
}

impl FromSegmentFrame for u8 {
    open spec fn accepts(v: FrameVal) -> bool {
        v is Integer
    }

    open spec fn decodes_to(v: FrameVal, out: Self) -> bool {
        out == v->Integer_0 as u8
    }

    open spec fn decode_err(v: FrameVal, e: CommandError) -> bool {
        incompatible(v, "u8"@, e)
    }

    fn from_segment_frame(frame: &Frame) -> (r: Result<Self, CommandError>) {
        match frame {
            Frame::Integer(val) => Ok(#[verifier::truncate] (*val as u8)),
            other => Err(CommandError::IncompatibleType(other.kind_name(), "u8")),
        }
    }
}

impl FromSegmentFrame for i8 {
    open spec fn accepts(v: FrameVal) -> bool {
        v is Integer
    }

    open spec fn decodes_to(v: FrameVal, out: Self) -> bool {
        out == v->Integer_0 as i8
    }

    open spec fn decode_err(v: FrameVal, e: CommandError) -> bool {
        incompatible(v, "i8"@, e)
    }

    fn from_segment_frame(frame: &Frame) -> (r: Result<Self, CommandError>) {
        match frame {
            Frame::Integer(val) => Ok(#[verifier::truncate] (*val as i8)),
            other => Err(CommandError::IncompatibleType(other.kind_name(), "i8")),
        }
    }
}

impl FromSegmentFrame for u16 {
    open spec fn accepts(v: FrameVal) -> bool {
        v is Integer
    }

    open spec fn decodes_to(v: FrameVal, out: Self) -> bool {
        out == v->Integer_0 as u16
    }

    open spec fn decode_err(v: FrameVal, e: CommandError) -> bool {
        incompatible(v, "u16"@, e)
    }

    fn from_segment_frame(frame: &Frame) -> (r: Result<Self, CommandError>) {
        match frame {
            Frame::Integer(val) => Ok(#[verifier::truncate] (*val as u16)),
            other => Err(CommandError::IncompatibleType(other.kind_name(), "u16")),
        }
    }
}

impl FromSegmentFrame for i16 {
    open spec fn accepts(v: FrameVal) -> bool {
        v is Integer
    }

    open spec fn decodes_to(v: FrameVal, out: Self) -> bool {
        out == v->Integer_0 as i16
    }

    open spec fn decode_err(v: FrameVal, e: CommandError) -> bool {
        incompatible(v, "i16"@, e)
    }

    fn from_segment_frame(frame: &Frame) -> (r: Result<Self, CommandError>) {
        match frame {
            Frame::Integer(val) => Ok(#[verifier::truncate] (*val as i16)),
            other => Err(CommandError::IncompatibleType(other.kind_name(), "i16")),
        }
    }
}

impl FromSegmentFrame for u32 {
    open spec fn accepts(v: FrameVal) -> bool {
        v is Integer
    }

    open spec fn decodes_to(v: FrameVal, out: Self) -> bool {
        out == v->Integer_0 as u32
    }

    open spec fn decode_err(v: FrameVal, e: CommandError) -> bool {
        incompatible(v, "u32"@, e)
    }

    fn from_segment_frame(frame: &Frame) -> (r: Result<Self, CommandError>) {
        match frame {
            Frame::Integer(val) => Ok(#[verifier::truncate] (*val as u32)),
            other => Err(CommandError::IncompatibleType(other.kind_name(), "u32")),
        }
    }
}

impl FromSegmentFrame for i32 {
    open spec fn accepts(v: FrameVal) -> bool {
        v is Integer
    }

    open spec fn decodes_to(v: FrameVal, out: Self) -> bool {
        out == v->Integer_0 as i32
    }

    open spec fn decode_err(v: FrameVal, e: CommandError) -> bool {
        incompatible(v, "i32"@, e)
    }

    fn from_segment_frame(frame: &Frame) -> (r: Result<Self, CommandError>) {
        match frame {
            Frame::Integer(val) => Ok(#[verifier::truncate] (*val as i32)),
            other => Err(CommandError::IncompatibleType(other.kind_name(), "i32")),
        }
    }
}

impl FromSegmentFrame for u64 {
    open spec fn accepts(v: FrameVal) -> bool {
        v is Integer
    }

    open spec fn decodes_to(v: FrameVal, out: Self) -> bool {
        out == v->Integer_0 as u64
    }

    open spec fn decode_err(v: FrameVal, e: CommandError) -> bool {
        incompatible(v, "u64"@, e)
    }

    fn from_segment_frame(frame: &Frame) -> (r: Result<Self, CommandError>) {
        match frame {
            Frame::Integer(val) => Ok(#[verifier::truncate] (*val as u64)),
            other => Err(CommandError::IncompatibleType(other.kind_name(), "u64")),
        }
    }
}

impl FromSegmentFrame for i64 {
    open spec fn accepts(v: FrameVal) -> bool {
        v is Integer
    }

    open spec fn decodes_to(v: FrameVal, out: Self) -> bool {
        out == v->Integer_0
    }

    open spec fn decode_err(v: FrameVal, e: CommandError) -> bool {
        incompatible(v, "i64"@, e)
    }

    fn from_segment_frame(frame: &Frame) -> (r: Result<Self, CommandError>) {
        match frame {
            Frame::Integer(val) => Ok(*val),
            other => Err(CommandError::IncompatibleType(other.kind_name(), "i64")),
        }
    }
}

impl FromSegmentFrame for bool {
    open spec fn accepts(v: FrameVal) -> bool {
        v is Boolean
    }

    open spec fn decodes_to(v: FrameVal, out: Self) -> bool {
        out == v->Boolean_0
    }

    open spec fn decode_err(v: FrameVal, e: CommandError) -> bool {
        incompatible(v, "bool"@, e)
    }

    fn from_segment_frame(frame: &Frame) -> (r: Result<Self, CommandError>) {
        match frame {
            Frame::Boolean(val) => Ok(*val),
            other => Err(CommandError::IncompatibleType(other.kind_name(), "bool")),
        }
    }
}

impl FromSegmentFrame for String {
    open spec fn accepts(v: FrameVal) -> bool {
        match v {
            FrameVal::String(b) => valid_utf8(b),
            _ => false,
        }
    }

    open spec fn decodes_to(v: FrameVal, out: Self) -> bool {
        match v {
            FrameVal::String(b) => out@ == decode_utf8(b),
            _ => false,
        }
    }

    open spec fn decode_err(v: FrameVal, e: CommandError) -> bool {
        match v {
            FrameVal::String(b) => !valid_utf8(b) && e == CommandError::Utf8Error,
            _ => incompatible(v, "String"@, e),
        }
    }

    fn from_segment_frame(frame: &Frame) -> (r: Result<Self, CommandError>) {
        match frame {
            Frame::String(val) => match utf8_to_string(val.as_slice()) {
                Some(s) => Ok(s),
                None => Err(CommandError::Utf8Error),
            },
            other => Err(CommandError::IncompatibleType(other.kind_name(), "String")),
        }
    }
}

impl FromSegmentFrame for Bytes {
    open spec fn accepts(v: FrameVal) -> bool {
        v is String
    }

    open spec fn decodes_to(v: FrameVal, out: Self) -> bool {
        out.0@ == v->String_0
    }

    open spec fn decode_err(v: FrameVal, e: CommandError) -> bool {
        incompatible(v, "Bytes"@, e)
    }

    fn from_segment_frame(frame: &Frame) -> (r: Result<Self, CommandError>) {
        match frame {
            Frame::String(val) => Ok(Bytes(slice_to_vec(val.as_slice()))),
            other => Err(CommandError::IncompatibleType(other.kind_name(), "Bytes")),
        }
    }
}

impl<T: FromSegmentFrame> FromSegmentFrame for Option<T> {
    open spec fn accepts(v: FrameVal) -> bool {
        v is Null || T::accepts(v)
    }

    open spec fn decodes_to(v: FrameVal, out: Self) -> bool {
        if v is Null {
            out is None
        } else {
            out matches Some(x) && T::decodes_to(v, x)
        }
    }

    open spec fn decode_err(v: FrameVal, e: CommandError) -> bool {
        !(v is Null) && T::decode_err(v, e)
    }

    fn from_segment_frame(frame: &Frame) -> (r: Result<Self, CommandError>) {
        match frame {
            Frame::Null => Ok(None),
            _ => match T::from_segment_frame(frame) {
                Ok(x) => Ok(Some(x)),
                Err(e) => Err(e),
            },
        }
    }
}

impl<T: FromSegmentFrame> FromSegmentFrame for Vec<T> {
    open spec fn accepts(v: FrameVal) -> bool {
        match v {
            FrameVal::Array(elems) => forall|i: int|
                0 <= i < elems.len() ==> T::accepts(#[trigger] elems[i]),
            _ => false,
        }
    }

    open spec fn decodes_to(v: FrameVal, out: Self) -> bool {
        match v {
            FrameVal::Array(elems) => out@.len() == elems.len() && forall|i: int|
                0 <= i < elems.len() ==> T::decodes_to(#[trigger] elems[i], out@[i]),
            _ => false,
        }
    }

    open spec fn decode_err(v: FrameVal, e: CommandError) -> bool {
        match v {
            FrameVal::Array(elems) => exists|i: int|
                0 <= i < elems.len() && !T::accepts(#[trigger] elems[i]) && (forall|j: int|
                    0 <= j < i ==> T::accepts(#[trigger] elems[j])) && T::decode_err(elems[i], e),
            _ => incompatible(v, "Vec"@, e),
        }
    }

    fn from_segment_frame(frame: &Frame) -> (r: Result<Self, CommandError>) {
        match frame {
            Frame::Array(array) => {
                let ghost elems = frames_view(array@);
                proof {
                    lemma_frames_view(array@);
                }
                let mut vec: Vec<T> = Vec::new();
                let mut i: usize = 0;
                while i < array.len()
                    invariant
                        frame@ == FrameVal::Array(elems),
                        i <= array@.len(),
                        elems == frames_view(array@),
                        elems.len() == array@.len(),
                        forall|j: int| 0 <= j < elems.len() ==> #[trigger] elems[j] == array@[j]@,
                        vec@.len() == i,
                        forall|j: int| 0 <= j < i ==> T::accepts(#[trigger] elems[j]),
                        forall|j: int| 0 <= j < i ==> T::decodes_to(#[trigger] elems[j], vec@[j]),
                    decreases array@.len() - i,
                {
                    match T::from_segment_frame(&array[i]) {
                        Ok(x) => {
                            vec.push(x);
                        },
                        Err(e) => {
                            proof {
                                assert(!T::accepts(elems[i as int]));
                                assert(T::decode_err(elems[i as int], e));
                                assert(frame@->Array_0 == elems);
                                assert(!Self::accepts(frame@)) by {
                                    if Self::accepts(frame@) {
                                        assert(T::accepts(frame@->Array_0[i as int]));
                                    }
                                }
                                let w: int = i as int;
                                assert(0 <= w < elems.len() && !T::accepts(elems[w]) && (forall|
                                    j: int,
                                |
                                    0 <= j < w ==> T::accepts(#[trigger] elems[j]))
                                    && T::decode_err(elems[w], e));
                                assert(Self::decode_err(frame@, e));
                            }
                            return Err(e);
                        },
                    }
                    i += 1;
                }
                Ok(vec)
            },
            other => Err(CommandError::IncompatibleType(other.kind_name(), "Vec")),
        }
    }
}

impl<K: FromSegmentFrame, V: FromSegmentFrame> FromSegmentFrame for Pairs<K, V> {
    open spec fn accepts(v: FrameVal) -> bool {
        match v {
            FrameVal::Mapping(elems) => elems.len() % 2 == 0 && forall|i: int|
                0 <= i < elems.len() / 2 ==> K::accepts(#[trigger] elems[2 * i]) && V::accepts(
                    elems[2 * i + 1],
                ),
            _ => false,
        }
    }

    open spec fn decodes_to(v: FrameVal, out: Self) -> bool {
        match v {
            FrameVal::Mapping(elems) => out.0@.len() == elems.len() / 2 && forall|i: int|
                0 <= i < elems.len() / 2 ==> K::decodes_to(#[trigger] elems[2 * i], out.0@[i].0)
                    && V::decodes_to(elems[2 * i + 1], out.0@[i].1),
            _ => false,
        }
    }

    open spec fn decode_err(v: FrameVal, e: CommandError) -> bool {
        match v {
            FrameVal::Mapping(elems) => if elems.len() % 2 != 0 {
                e == CommandError::Decode
            } else {
                exists|i: int|
                    0 <= i < elems.len() / 2 && (forall|j: int|
                        0 <= j < i ==> K::accepts(#[trigger] elems[2 * j]) && V::accepts(
                            elems[2 * j + 1],
                        )) && ((!K::accepts(elems[2 * i]) && K::decode_err(#[trigger] elems[2 * i], e))
                        || (K::accepts(elems[2 * i]) && !V::accepts(elems[2 * i + 1])
                        && V::decode_err(elems[2 * i + 1], e)))
            },
            _ => incompatible(v, "Pairs"@, e),
        }
    }

    fn from_segment_frame(frame: &Frame) -> (r: Result<Self, CommandError>) {
        match frame {
            Frame::Mapping(map) => {
                let ghost elems = frames_view(map@);
                proof {
                    lemma_frames_view(map@);
                }
                if map.len() % 2 != 0 {
                    return Err(CommandError::Decode);
                }
                let half = map.len() / 2;
                proof {
                    assert(map.len() == map@.len());
                }
                let mut out: Vec<(K, V)> = Vec::new();
                let mut i: usize = 0;
                while i < half
                    invariant
                        frame@ == FrameVal::Mapping(elems),
                        i <= half,
                        half == elems.len() / 2,
                        elems.len() % 2 == 0,
                        elems == frames_view(map@),
                        elems.len() == map@.len() <= usize::MAX,
                        forall|j: int| 0 <= j < elems.len() ==> #[trigger] elems[j] == map@[j]@,
                        out@.len() == i,
                        forall|j: int|
                            0 <= j < i ==> K::accepts(#[trigger] elems[2 * j]) && V::accepts(
                                elems[2 * j + 1],
                            ),
                        forall|j: int|
                            0 <= j < i ==> K::decodes_to(#[trigger] elems[2 * j], out@[j].0)
                                && V::decodes_to(elems[2 * j + 1], out@[j].1),
                    decreases half - i,
                {
                    let key = match K::from_segment_frame(&map[2 * i]) {
                        Ok(k) => k,
                        Err(e) => {
                            proof {
                                assert(!K::accepts(elems[2 * i]));
                                assert(K::decode_err(elems[2 * i], e));
                                assert(frame@->Mapping_0 == elems);
                                assert(!Self::accepts(frame@)) by {
                                    if Self::accepts(frame@) {
                                        assert(K::accepts(frame@->Mapping_0[2 * (i as int)]));
                                    }
                                }
                                let w: int = i as int;
                                assert(0 <= w < elems.len() / 2 && (forall|j: int|
                                    0 <= j < w ==> K::accepts(#[trigger] elems[2 * j]) && V::accepts(
                                        elems[2 * j + 1],
                                    )) && ((!K::accepts(elems[2 * w]) && K::decode_err(
                                    elems[2 * w],
                                    e,
                                )) || (K::accepts(elems[2 * w]) && !V::accepts(elems[2 * w + 1])
                                    && V::decode_err(elems[2 * w + 1], e))));
                                assert(Self::decode_err(frame@, e));
                            }
                            return Err(e);
                        },
                    };
                    let value = match V::from_segment_frame(&map[2 * i + 1]) {
                        Ok(v) => v,
                        Err(e) => {
                            proof {
                                assert(K::accepts(elems[2 * i]));
                                assert(!V::accepts(elems[2 * i + 1]));
                                assert(V::decode_err(elems[2 * i + 1], e));
                                assert(frame@->Mapping_0 == elems);
                                assert(!Self::accepts(frame@)) by {
                                    if Self::accepts(frame@) {
                                        assert(V::accepts(frame@->Mapping_0[2 * (i as int) + 1]));
                                    }
                                }
                                let w: int = i as int;
                                assert(0 <= w < elems.len() / 2 && (forall|j: int|
                                    0 <= j < w ==> K::accepts(#[trigger] elems[2 * j]) && V::accepts(
                                        elems[2 * j + 1],
                                    )) && ((!K::accepts(elems[2 * w]) && K::decode_err(
                                    elems[2 * w],
                                    e,
                                )) || (K::accepts(elems[2 * w]) && !V::accepts(elems[2 * w + 1])
                                    && V::decode_err(elems[2 * w + 1], e))));
                                assert(Self::decode_err(frame@, e));
                            }
                            return Err(e);
                        },
                    };
                    proof {
                        assert(elems[2 * i] == map@[2 * i]@);
                        assert(elems[2 * i + 1] == map@[2 * i + 1]@);
                    }
                    let ghost out0 = out@;
                    out.push((key, value));
                    proof {
                        assert(out@ == out0.push((key, value)));
                        assert forall|j: int|
                            0 <= j < i + 1 implies K::decodes_to(
                            #[trigger] elems[2 * j],
                            out@[j].0,
                        ) && V::decodes_to(elems[2 * j + 1], out@[j].1) by {
                            if j < i {
                                assert(out@[j] == out0[j]);
                            } else {
                                assert(out@[j] == (key, value));
                            }
                        }
                    }
                    i += 1;
                }
                let result = Pairs(out);
                proof {
                    assert(frame@->Mapping_0 == elems);
                    assert(Self::accepts(frame@)) by {
                        assert forall|j: int|
                            0 <= j < frame@->Mapping_0.len() / 2 implies K::accepts(
                            #[trigger] frame@->Mapping_0[2 * j],
                        ) && V::accepts(frame@->Mapping_0[2 * j + 1]) by {
                            assert(K::accepts(elems[2 * j]) && V::accepts(elems[2 * j + 1]));
                        }
                    }
                    assert(Self::decodes_to(frame@, result)) by {
                        assert forall|j: int|
                            0 <= j < frame@->Mapping_0.len() / 2 implies K::decodes_to(
                            #[trigger] frame@->Mapping_0[2 * j],
                            result.0@[j].0,
                        ) && V::decodes_to(frame@->Mapping_0[2 * j + 1], result.0@[j].1) by {
                            assert(K::decodes_to(elems[2 * j], out@[j].0) && V::decodes_to(
                                elems[2 * j + 1],
                                out@[j].1,
                            ));
                        }
                    }
                }
                Ok(result)
            },
            other => Err(CommandError::IncompatibleType(other.kind_name(), "Pairs")),
        }
    }
}

/// Specifies a Segment command: a transient ordered list of frame arguments,
/// built up one typed argument at a time and submitted once.
#[derive(Debug)]
pub struct Command {
    args: Vec<Frame>,
}

impl Command {
    /// The frame values of the accumulated arguments, in order.
    pub closed spec fn spec_args(&self) -> Seq<FrameVal> {
        frames_view(self.args@)
    }

    /// Every accumulated argument frame is well formed.
    pub closed spec fn wf(&self) -> bool {
        forall|i: int| 0 <= i < self.args@.len() ==> frame_wf((#[trigger] self.args@[i])@)
    }

    /// Creates an empty command.
    pub fn new() -> (r: Self)
        ensures
            r.spec_args() == Seq::<FrameVal>::empty(),
            r.wf(),
    {
        let r = Command { args: Vec::new() };
        proof {
            assert(frames_view(r.args@) =~= Seq::<FrameVal>::empty());
        }
        r
    }

    /// Pushes an arg to the command's arg list, converting it to its frame.
    pub fn arg<T: ToSegmentFrame>(&mut self, arg: &T)
        ensures
            final(self).spec_args() == old(self).spec_args() + seq![arg.to_frame_spec()],
            old(self).wf() ==> final(self).wf(),
    {
        let f = arg.to_segment_frame();
        proof {
            crate::codec::lemma_frames_view_push(self.args@, f);
        }
        self.args.push(f);
    }

    /// The number of accumulated arguments.
    pub fn len(&self) -> (r: usize)
        ensures
            r == self.spec_args().len(),
    {
        proof {
            lemma_frames_view(self.args@);
        }
        self.args.len()
    }

    /// Consumes the command, wrapping the argument list in the single array
    /// frame that is submitted to the server.
    pub fn into_frame(self) -> (f: Frame)
        ensures
            f@ == FrameVal::Array(self.spec_args()),
            self.wf() ==> frame_wf(f@),
    {
        proof {
            lemma_frames_view(self.args@);
            assert(self.args.len() == self.args@.len());
            if self.wf() {
                assert forall|i: int|
                    0 <= i < frames_view(self.args@).len() implies frame_wf(
                    #[trigger] frames_view(self.args@)[i],
                ) by {
                    assert(frames_view(self.args@)[i] == self.args@[i]@);
                }
                assert(frame_wf(FrameVal::Array(frames_view(self.args@))));
            }
        }
        Frame::Array(self.args)
    }
}

impl Default for Command {
    /// The default command is empty.
    fn default() -> (r: Self)
        ensures
            r.spec_args() == Seq::<FrameVal>::empty(),
            r.wf(),
    {
        Command::new()
    }
}

/// Interprets the server's response to a submitted command: an error frame
/// surfaces as a query-level failure carrying the server's message, any
/// other frame is decoded as the requested native type.
pub fn interpret_response<T: FromSegmentFrame>(response: &Frame) -> (r: Result<T, CommandError>)
    ensures
        response@ matches FrameVal::Error(msg) ==> ((valid_utf8(msg) ==> (r matches Err(e)
            && e matches CommandError::QueryError(s) && s@ == decode_utf8(msg))) && (!valid_utf8(
            msg,
        ) ==> r == Err::<T, CommandError>(CommandError::Utf8Error))),
        !(response@ is Error) ==> ((r is Ok) == T::accepts(response@) && (r matches Ok(out)
            ==> T::decodes_to(response@, out)) && (r matches Err(e) ==> T::decode_err(
            response@,
            e,
        ))),
{
    match response {
        Frame::Error(val) => match utf8_to_string(val.as_slice()) {
            Some(s) => Err(CommandError::QueryError(s)),
            None => Err(CommandError::Utf8Error),
        },
        _ => T::from_segment_frame(response),
    }
}

} // verus!
