//! The frame codec: the deterministic serializer from frames to wire bytes,
//! and the incremental parser from buffered bytes to frames.
//!
//! The wire grammar is line-oriented: every frame begins with a one-byte type
//! identifier and a header line closed by `\r\n`; strings and errors carry a
//! length-prefixed binary payload, arrays and maps a counted run of nested
//! frames.

use vstd::prelude::*;

use crate::frame::ARRAY_IDENT;
use crate::frame::BOOLEAN_IDENT;
use crate::frame::DOUBLE_IDENT;
use crate::frame::ERROR_IDENT;
use crate::frame::Frame;
use crate::frame::FrameVal;
use crate::frame::INTEGER_IDENT;
use crate::frame::MAP_IDENT;
use crate::frame::NULL_IDENT;
use crate::frame::STRING_IDENT;
use crate::frame::ParseFrameError;
use crate::frame::frames_view;
use crate::frame::lemma_frames_view;
use crate::num::B_CR;
use crate::num::B_LF;
use crate::num::B_ONE;
use crate::num::B_ZERO;
use crate::num::check_float_text;
use crate::num::dec_rep;
use crate::num::dec_rep_signed;
use crate::num::dec_signed;
use crate::num::dec_unsigned;
use crate::num::format_i64;
use crate::num::format_u64;
use crate::num::is_float_text;
use crate::num::parse_signed;
use crate::num::parse_unsigned;
use vstd::slice::slice_subrange;
use vstd::slice::slice_to_vec;
use vstd::utf8::decode_utf8;
use vstd::utf8::valid_utf8;

verus! {

/// The two-byte line delimiter.
pub open spec fn crlf() -> Seq<u8> {
    seq![B_CR, B_LF]
}

/// The wire encoding of a frame value.
pub open spec fn enc(v: FrameVal) -> Seq<u8>
    decreases v,
{
    match v {
        FrameVal::String(data) => seq![STRING_IDENT] + dec_rep(data.len()) + crlf() + data
            + crlf(),
        FrameVal::Integer(i) => seq![INTEGER_IDENT] + dec_rep_signed(i) + crlf(),
        FrameVal::Array(items) => seq![ARRAY_IDENT] + dec_rep(items.len()) + crlf() + enc_list(
            items,
        ),
        FrameVal::Boolean(b) => seq![BOOLEAN_IDENT] + (if b {
            seq![B_ONE]
        } else {
            seq![B_ZERO]
        }) + crlf(),
        FrameVal::Null => seq![NULL_IDENT] + crlf(),
        FrameVal::Mapping(items) => seq![MAP_IDENT] + dec_rep((items.len() / 2) as nat) + crlf()
            + enc_list(items),
        FrameVal::Double(text) => seq![DOUBLE_IDENT] + text + crlf(),
        FrameVal::Error(data) => seq![ERROR_IDENT] + dec_rep(data.len()) + crlf() + data + crlf(),
    }
}

/// The concatenated encodings of a sequence of frame values.
pub open spec fn enc_list(items: Seq<FrameVal>) -> Seq<u8>
    decreases items,
{
    if items.len() == 0 {
        Seq::empty()
    } else {
        enc(items[0]) + enc_list(items.drop_first())
    }
}

pub proof fn lemma_enc_list_take_step(items: Seq<FrameVal>, i: int)
    requires
        0 <= i < items.len(),
    ensures
        enc_list(items.take(i + 1)) == enc_list(items.take(i)) + enc(items[i]),
    decreases i,
{
    if i == 0 {
        assert(items.take(1)[0] == items[0]);
        assert(items.take(1).drop_first() =~= items.take(0));
        assert(enc_list(items.take(0)) + enc(items[0]) =~= enc(items[0]) + Seq::<u8>::empty());
    } else {
        lemma_enc_list_take_step(items.drop_first(), i - 1);
        assert(items.take(i + 1)[0] == items[0]);
        assert(items.take(i + 1).drop_first() =~= items.drop_first().take(i));
        assert(items.take(i).drop_first() =~= items.drop_first().take(i - 1));
        assert(items.take(i)[0] == items[0]);
        assert(items.drop_first()[i - 1] == items[i]);
        assert(enc(items[0]) + (enc_list(items.drop_first().take(i - 1)) + enc(items[i])) =~= (enc(
            items[0],
        ) + enc_list(items.drop_first().take(i - 1))) + enc(items[i]));
    }
}

/// Serializes one frame to its complete wire byte sequence.  Total: any
/// constructible frame encodes; a map frame emits its pair count, half its
/// inner element count, as the wire format demands.
pub fn encode(f: &Frame) -> (out: Vec<u8>)
    ensures
        out@ == enc(f@),
    decreases *f,
{
    match f {
        Frame::String(data) => {
            let mut out: Vec<u8> = Vec::new();
            out.push(STRING_IDENT);
            let mut digits = format_u64(data.len() as u64);
            out.append(&mut digits);
            out.push(B_CR);
            out.push(B_LF);
            let mut i: usize = 0;
            while i < data.len()
                invariant
                    i <= data@.len(),
                    out@ == seq![STRING_IDENT] + dec_rep(data@.len()) + crlf() + data@.take(
                        i as int,
                    ),
                decreases data@.len() - i,
            {
                out.push(data[i]);
                proof {
                    assert(data@.take(i + 1) =~= data@.take(i as int).push(data@[i as int]));
                }
                i += 1;
            }
            out.push(B_CR);
            out.push(B_LF);
            proof {
                assert(data@.take(data@.len() as int) =~= data@);
                assert(out@ =~= enc(f@));
            }
            out
        },
        Frame::Integer(i) => {
            let mut out: Vec<u8> = Vec::new();
            out.push(INTEGER_IDENT);
            let mut digits = format_i64(*i);
            out.append(&mut digits);
            out.push(B_CR);
            out.push(B_LF);
            proof {
                assert(out@ =~= enc(f@));
            }
            out
        },
        Frame::Array(items) => {
            let mut out: Vec<u8> = Vec::new();
            out.push(ARRAY_IDENT);
            let mut digits = format_u64(items.len() as u64);
            out.append(&mut digits);
            out.push(B_CR);
            out.push(B_LF);
            proof {
                lemma_frames_view(items@);
                assert(out@ =~= seq![ARRAY_IDENT] + dec_rep(items@.len()) + crlf() + enc_list(
                    frames_view(items@).take(0),
                ));
            }
            let mut i: usize = 0;
            while i < items.len()
                invariant
                    *f == Frame::Array(*items),
                    i <= items@.len(),
                    out@ == seq![ARRAY_IDENT] + dec_rep(items@.len()) + crlf() + enc_list(
                        frames_view(items@).take(i as int),
                    ),
                decreases items@.len() - i,
            {
                proof {
                    assert(decreases_to!(*f => (*f)->Array_0));
                    assert((*f)->Array_0 == *items);
                    assert(decreases_to!(*items => items@));
                    assert(decreases_to!(items@ => items@[i as int]));
                }
                let mut piece = encode(&items[i]);
                out.append(&mut piece);
                proof {
                    lemma_frames_view(items@);
                    lemma_enc_list_take_step(frames_view(items@), i as int);
                    assert(out@ =~= seq![ARRAY_IDENT] + dec_rep(items@.len()) + crlf() + enc_list(
                        frames_view(items@).take(i + 1),
                    ));
                }
                i += 1;
            }
            proof {
                lemma_frames_view(items@);
                assert(frames_view(items@).take(items@.len() as int) =~= frames_view(items@));
                assert(out@ =~= enc(f@));
            }
            out
        },
        Frame::Boolean(b) => {
            let mut out: Vec<u8> = Vec::new();
            out.push(BOOLEAN_IDENT);
            if *b {
                out.push(B_ONE);
            } else {
                out.push(B_ZERO);
            }
            out.push(B_CR);
            out.push(B_LF);
            proof {
                assert(out@ =~= enc(f@));
            }
            out
        },
        Frame::Null => {
            let mut out: Vec<u8> = Vec::new();
            out.push(NULL_IDENT);
            out.push(B_CR);
            out.push(B_LF);
            proof {
                assert(out@ =~= enc(f@));
            }
            out
        },
        Frame::Mapping(items) => {
            let mut out: Vec<u8> = Vec::new();
            out.push(MAP_IDENT);
            let mut digits = format_u64((items.len() / 2) as u64);
            out.append(&mut digits);
            out.push(B_CR);
            out.push(B_LF);
            proof {
                lemma_frames_view(items@);
                assert(out@ =~= seq![MAP_IDENT] + dec_rep((items@.len() / 2) as nat) + crlf()
                    + enc_list(frames_view(items@).take(0)));
            }
            let mut i: usize = 0;
            while i < items.len()
                invariant
                    *f == Frame::Mapping(*items),
                    i <= items@.len(),
                    out@ == seq![MAP_IDENT] + dec_rep((items@.len() / 2) as nat) + crlf()
                        + enc_list(frames_view(items@).take(i as int)),
                decreases items@.len() - i,
            {
                proof {
                    assert(decreases_to!(*f => (*f)->Mapping_0));
                    assert((*f)->Mapping_0 == *items);
                    assert(decreases_to!(*items => items@));
                    assert(decreases_to!(items@ => items@[i as int]));
                }
                let mut piece = encode(&items[i]);
                out.append(&mut piece);
                proof {
                    lemma_frames_view(items@);
                    lemma_enc_list_take_step(frames_view(items@), i as int);
                    assert(out@ =~= seq![MAP_IDENT] + dec_rep((items@.len() / 2) as nat) + crlf()
                        + enc_list(frames_view(items@).take(i + 1)));
                }
                i += 1;
            }
            proof {
                lemma_frames_view(items@);
                assert(frames_view(items@).take(items@.len() as int) =~= frames_view(items@));
                assert(out@ =~= enc(f@));
            }
            out
        },
        Frame::Double(text) => {
            let mut out: Vec<u8> = Vec::new();
            out.push(DOUBLE_IDENT);
            let mut i: usize = 0;
            while i < text.len()
                invariant
                    i <= text@.len(),
                    out@ == seq![DOUBLE_IDENT] + text@.take(i as int),
                decreases text@.len() - i,
            {
                out.push(text[i]);
                proof {
                    assert(text@.take(i + 1) =~= text@.take(i as int).push(text@[i as int]));
                }
                i += 1;
            }
            out.push(B_CR);
            out.push(B_LF);
            proof {
                assert(text@.take(text@.len() as int) =~= text@);
                assert(out@ =~= enc(f@));
            }
            out
        },
        Frame::Error(data) => {
            let mut out: Vec<u8> = Vec::new();
            out.push(ERROR_IDENT);
            let mut digits = format_u64(data.len() as u64);
            out.append(&mut digits);
            out.push(B_CR);
            out.push(B_LF);
            let mut i: usize = 0;
            while i < data.len()
                invariant
                    i <= data@.len(),
                    out@ == seq![ERROR_IDENT] + dec_rep(data@.len()) + crlf() + data@.take(
                        i as int,
                    ),
                decreases data@.len() - i,
            {
                out.push(data[i]);
                proof {
                    assert(data@.take(i + 1) =~= data@.take(i as int).push(data@[i as int]));
                }
                i += 1;
            }
            out.push(B_CR);
            out.push(B_LF);
            proof {
                assert(data@.take(data@.len() as int) =~= data@);
                assert(out@ =~= enc(f@));
            }
            out
        },
    }
}

// ---------------------------------------------------------------------------
// Decoding
// ---------------------------------------------------------------------------

/// The index of the first `\r\n` pair at or after `i`, or -1 if none lies
/// wholly inside `s`.
pub open spec fn find_crlf(s: Seq<u8>, i: int) -> int
    decreases s.len() - i,
{
    if i + 1 >= s.len() {
        -1
    } else if s[i] == B_CR && s[i + 1] == B_LF {
        i
    } else {
        find_crlf(s, i + 1)
    }
}

pub proof fn lemma_find_crlf(s: Seq<u8>, i: int)
    requires
        0 <= i,
    ensures
        ({
            let r = find_crlf(s, i);
            &&& r == -1 ==> forall|j: int|
                i <= j && j + 1 < s.len() ==> !(#[trigger] s[j] == B_CR && s[j + 1] == B_LF)
            &&& r >= 0 ==> i <= r && r + 2 <= s.len() && s[r] == B_CR && s[r + 1] == B_LF && forall|
                j: int,
            |
                i <= j < r ==> !(#[trigger] s[j] == B_CR && s[j + 1] == B_LF)
        }),
    decreases s.len() - i,
{
    if i + 1 >= s.len() {
    } else if s[i] == B_CR && s[i + 1] == B_LF {
    } else {
        lemma_find_crlf(s, i + 1);
    }
}

/// If the first delimiter pair at or after `i` stands at `k`, the scan finds it.
pub proof fn lemma_find_crlf_at(s: Seq<u8>, i: int, k: int)
    requires
        0 <= i <= k,
        k + 2 <= s.len(),
        s[k] == B_CR,
        s[k + 1] == B_LF,
        forall|j: int| i <= j < k ==> !(#[trigger] s[j] == B_CR && s[j + 1] == B_LF),
    ensures
        find_crlf(s, i) == k,
    decreases k - i,
{
    if i < k {
        lemma_find_crlf_at(s, i + 1, k);
    }
}

/// The outcome of parsing one frame from a byte sequence.
pub ghost enum SpecParse {
    /// A full frame lies at the front, spanning `n` bytes.
    Found { v: FrameVal, n: int },
    /// More bytes are needed.
    Incomplete,
    /// The bytes violate the grammar.
    Fail { e: ParseFrameError },
}

/// The outcome of parsing a counted run of frames from a byte sequence.
pub ghost enum SpecParseList {
    Found { items: Seq<FrameVal>, n: int },
    Incomplete,
    Fail { e: ParseFrameError },
}

/// Prefixes an already-parsed run onto a parse-run outcome.
pub open spec fn list_prepend(pre: Seq<FrameVal>, k: int, r: SpecParseList) -> SpecParseList {
    match r {
        SpecParseList::Found { items, n } => SpecParseList::Found { items: pre + items, n: k + n },
        SpecParseList::Incomplete => SpecParseList::Incomplete,
        SpecParseList::Fail { e } => SpecParseList::Fail { e },
    }
}

proof fn lemma_list_prepend_compose(a: Seq<FrameVal>, k: int, b: Seq<FrameVal>, m: int, r: SpecParseList)
    ensures
        list_prepend(a, k, list_prepend(b, m, r)) == list_prepend(a + b, k + m, r),
{
    match r {
        SpecParseList::Found { items, n } => {
            assert(a + (b + items) =~= (a + b) + items);
        },
        _ => {},
    }
}

/// What parsing the front of `s` yields: the frame and the bytes consumed,
/// a request for more bytes, or a grammar fault.  This is the reference
/// meaning of the wire grammar; the executable parser is proved against it.
pub open spec fn spec_parse(s: Seq<u8>) -> SpecParse
    decreases s.len(), 0nat,
    via spec_parse_decreases
{
    let cr = find_crlf(s, 0);
    if cr < 0 {
        SpecParse::Incomplete
    } else if cr == 0 {
        SpecParse::Fail { e: ParseFrameError::InvalidFormat }
    } else {
        let ident = s[0];
        let line = s.subrange(1, cr);
        let hdr = cr + 2;
        let rest = s.skip(hdr);
        if ident == STRING_IDENT {
            match dec_unsigned(line) {
                Option::None => SpecParse::Fail { e: ParseFrameError::InvalidFormat },
                Option::Some(len) => if rest.len() < len + 2 {
                    SpecParse::Incomplete
                } else {
                    SpecParse::Found { v: FrameVal::String(rest.take(len as int)), n: hdr + len + 2 }
                },
            }
        } else if ident == INTEGER_IDENT {
            match dec_signed(line) {
                Option::None => SpecParse::Fail { e: ParseFrameError::InvalidFormat },
                Option::Some(i) => SpecParse::Found { v: FrameVal::Integer(i), n: hdr },
            }
        } else if ident == ARRAY_IDENT {
            match dec_unsigned(line) {
                Option::None => SpecParse::Fail { e: ParseFrameError::InvalidFormat },
                Option::Some(count) => match spec_parse_list(rest, count as nat) {
                    SpecParseList::Found { items, n } => SpecParse::Found {
                        v: FrameVal::Array(items),
                        n: hdr + n,
                    },
                    SpecParseList::Incomplete => SpecParse::Incomplete,
                    SpecParseList::Fail { e } => SpecParse::Fail { e },
                },
            }
        } else if ident == BOOLEAN_IDENT {
            if line.len() != 1 {
                SpecParse::Fail { e: ParseFrameError::InvalidFormat }
            } else if line[0] == B_ZERO {
                SpecParse::Found { v: FrameVal::Boolean(false), n: hdr }
            } else if line[0] == B_ONE {
                SpecParse::Found { v: FrameVal::Boolean(true), n: hdr }
            } else {
                SpecParse::Fail { e: ParseFrameError::InvalidFormat }
            }
        } else if ident == NULL_IDENT {
            if line.len() == 0 {
                SpecParse::Found { v: FrameVal::Null, n: hdr }
            } else {
                SpecParse::Fail { e: ParseFrameError::InvalidFormat }
            }
        } else if ident == MAP_IDENT {
            match dec_unsigned(line) {
                Option::None => SpecParse::Fail { e: ParseFrameError::InvalidFormat },
                Option::Some(count) => match spec_parse_list(rest, 2 * count as nat) {
                    SpecParseList::Found { items, n } => SpecParse::Found {
                        v: FrameVal::Mapping(items),
                        n: hdr + n,
                    },
                    SpecParseList::Incomplete => SpecParse::Incomplete,
                    SpecParseList::Fail { e } => SpecParse::Fail { e },
                },
            }
        } else if ident == DOUBLE_IDENT {
            if is_float_text(line) {
                SpecParse::Found { v: FrameVal::Double(line), n: hdr }
            } else if valid_utf8(line) {
                SpecParse::Fail { e: ParseFrameError::ParseFloatError }
            } else {
                SpecParse::Fail { e: ParseFrameError::Utf8Error }
            }
        } else if ident == ERROR_IDENT {
            match dec_unsigned(line) {
                Option::None => SpecParse::Fail { e: ParseFrameError::InvalidFormat },
                Option::Some(len) => if rest.len() < len + 2 {
                    SpecParse::Incomplete
                } else {
                    SpecParse::Found { v: FrameVal::Error(rest.take(len as int)), n: hdr + len + 2 }
                },
            }
        } else {
            SpecParse::Fail { e: ParseFrameError::InvalidFormat }
        }
    }
}

/// Parsing a run of `count` frames, front to back.  A parsed frame always
/// spans at least one byte; the guard makes that structural, and
/// `lemma_spec_parse_bounds` shows its other arm is never taken.
pub open spec fn spec_parse_list(s: Seq<u8>, count: nat) -> SpecParseList
    decreases s.len(), 1nat, count,
{
    if count == 0 {
        SpecParseList::Found { items: Seq::empty(), n: 0 }
    } else {
        match spec_parse(s) {
            SpecParse::Found { v, n } => {
                if 1 <= n <= s.len() {
                    match spec_parse_list(s.skip(n), (count - 1) as nat) {
                        SpecParseList::Found { items, n: m } => SpecParseList::Found {
                            items: seq![v] + items,
                            n: n + m,
                        },
                        SpecParseList::Incomplete => SpecParseList::Incomplete,
                        SpecParseList::Fail { e } => SpecParseList::Fail { e },
                    }
                } else {
                    SpecParseList::Fail { e: ParseFrameError::InvalidFormat }
                }
            },
            SpecParse::Incomplete => SpecParseList::Incomplete,
            SpecParse::Fail { e } => SpecParseList::Fail { e },
        }
    }
}

#[via_fn]
proof fn spec_parse_decreases(s: Seq<u8>) {
    lemma_find_crlf(s, 0);
}

/// A parsed frame spans at least a header line (three bytes) and never more
/// than the buffer; a parsed run spans at most the buffer and yields exactly
/// its count.
pub proof fn lemma_spec_parse_bounds(s: Seq<u8>)
    ensures
        spec_parse(s) matches SpecParse::Found { v, n } ==> 3 <= n <= s.len(),
        spec_parse(s) matches SpecParse::Found { v, n } ==> 1 <= find_crlf(s, 0) && find_crlf(s, 0)
            + 2 <= n,
    decreases s.len(), 0nat,
{
    lemma_find_crlf(s, 0);
    if spec_parse(s) is Found {
        let cr = find_crlf(s, 0);
        let rest = s.skip(cr + 2);
        let line = s.subrange(1, cr);
        if s[0] == ARRAY_IDENT {
            lemma_spec_parse_list_bounds(rest, dec_unsigned(line).unwrap() as nat);
        } else if s[0] == MAP_IDENT {
            lemma_spec_parse_list_bounds(rest, 2 * dec_unsigned(line).unwrap() as nat);
        }
    }
}

pub proof fn lemma_spec_parse_list_bounds(s: Seq<u8>, count: nat)
    ensures
        spec_parse_list(s, count) matches SpecParseList::Found { items, n } ==> 0 <= n <= s.len()
            && items.len() == count,
    decreases s.len(), 1nat, count,
{
    if count > 0 {
        lemma_spec_parse_bounds(s);
        match spec_parse(s) {
            SpecParse::Found { v, n } => {
                if 1 <= n <= s.len() {
                    lemma_spec_parse_list_bounds(s.skip(n), (count - 1) as nat);
                }
            },
            _ => {},
        }
    }
}

/// Finds the header line delimiter in the buffered bytes.
pub fn get_line(data: &[u8]) -> (r: Option<usize>)
    ensures
        match r {
            Option::Some(cr) => find_crlf(data@, 0) == cr as int && cr + 2 <= data@.len(),
            Option::None => find_crlf(data@, 0) == -1,
        },
{
    if data.len() == 0 {
        return None;
    }
    let mut i: usize = 0;
    while i < data.len() - 1
        invariant
            data@.len() >= 1,
            i <= data@.len(),
            find_crlf(data@, 0) == find_crlf(data@, i as int),
        decreases data@.len() - i,
    {
        if data[i] == B_CR && data[i + 1] == B_LF {
            return Some(i);
        }
        i += 1;
    }
    None
}

/// Relies on `core::str::from_utf8`: it accepts exactly the valid UTF-8 byte
/// sequences, and decodes them to their characters.
#[verifier::external_body]
pub(crate) fn utf8_to_string(b: &[u8]) -> (r: Option<String>)
    ensures
        r is Some <==> valid_utf8(b@),
        r is Some ==> r.unwrap()@ == decode_utf8(b@),
{
    match core::str::from_utf8(b) {
        Ok(s) => Some(s.to_string()),
        Err(_) => None,
    }
}

fn parse_string(data: &[u8], hdr: usize, line: &[u8]) -> (r: Result<(Frame, usize), ParseFrameError>)
    requires
        3 <= hdr <= data@.len(),
    ensures
        match dec_unsigned(line@) {
            Option::None => r == Err::<(Frame, usize), ParseFrameError>(
                ParseFrameError::InvalidFormat,
            ),
            Option::Some(len) => if data@.len() - hdr < len + 2 {
                r == Err::<(Frame, usize), ParseFrameError>(ParseFrameError::Incomplete)
            } else {
                r matches Ok((fr, end)) && fr@ == FrameVal::String(
                    data@.subrange(hdr as int, hdr + len),
                ) && end == hdr + len + 2
            },
        },
{
    let len = match parse_unsigned(line) {
        Some(len) => len,
        None => {
            return Err(ParseFrameError::InvalidFormat);
        },
    };
    let remaining = data.len() - hdr;
    if remaining < 2 || remaining - 2 < len {
        return Err(ParseFrameError::Incomplete);
    }
    let payload = slice_to_vec(slice_subrange(data, hdr, hdr + len));
    Ok((Frame::String(payload), hdr + len + 2))
}

fn parse_error(data: &[u8], hdr: usize, line: &[u8]) -> (r: Result<(Frame, usize), ParseFrameError>)
    requires
        3 <= hdr <= data@.len(),
    ensures
        match dec_unsigned(line@) {
            Option::None => r == Err::<(Frame, usize), ParseFrameError>(
                ParseFrameError::InvalidFormat,
            ),
            Option::Some(len) => if data@.len() - hdr < len + 2 {
                r == Err::<(Frame, usize), ParseFrameError>(ParseFrameError::Incomplete)
            } else {
                r matches Ok((fr, end)) && fr@ == FrameVal::Error(
                    data@.subrange(hdr as int, hdr + len),
                ) && end == hdr + len + 2
            },
        },
{
    let len = match parse_unsigned(line) {
        Some(len) => len,
        None => {
            return Err(ParseFrameError::InvalidFormat);
        },
    };
    let remaining = data.len() - hdr;
    if remaining < 2 || remaining - 2 < len {
        return Err(ParseFrameError::Incomplete);
    }
    let payload = slice_to_vec(slice_subrange(data, hdr, hdr + len));
    Ok((Frame::Error(payload), hdr + len + 2))
}

fn parse_integer(line: &[u8]) -> (r: Result<Frame, ParseFrameError>)
    ensures
        match dec_signed(line@) {
            Option::Some(i) => r == Ok::<Frame, ParseFrameError>(Frame::Integer(i)),
            Option::None => r == Err::<Frame, ParseFrameError>(ParseFrameError::InvalidFormat),
        },
{
    match parse_signed(line) {
        Some(i) => Ok(Frame::Integer(i)),
        None => Err(ParseFrameError::InvalidFormat),
    }
}

fn parse_boolean(line: &[u8]) -> (r: Result<Frame, ParseFrameError>)
    ensures
        line@.len() == 1 && line@[0] == B_ZERO ==> r == Ok::<Frame, ParseFrameError>(
            Frame::Boolean(false),
        ),
        line@.len() == 1 && line@[0] == B_ONE ==> r == Ok::<Frame, ParseFrameError>(
            Frame::Boolean(true),
        ),
        !(line@.len() == 1 && (line@[0] == B_ZERO || line@[0] == B_ONE)) ==> r == Err::<
            Frame,
            ParseFrameError,
        >(ParseFrameError::InvalidFormat),
{
    if line.len() != 1 {
        return Err(ParseFrameError::InvalidFormat);
    }
    let val = line[0];
    if val == B_ZERO {
        Ok(Frame::Boolean(false))
    } else if val == B_ONE {
        Ok(Frame::Boolean(true))
    } else {
        Err(ParseFrameError::InvalidFormat)
    }
}

fn parse_null(line: &[u8]) -> (r: Result<Frame, ParseFrameError>)
    ensures
        line@.len() == 0 ==> r == Ok::<Frame, ParseFrameError>(Frame::Null),
        line@.len() != 0 ==> r == Err::<Frame, ParseFrameError>(ParseFrameError::InvalidFormat),
{
    if line.len() == 0 {
        Ok(Frame::Null)
    } else {
        Err(ParseFrameError::InvalidFormat)
    }
}

fn parse_double(line: &[u8]) -> (r: Result<Frame, ParseFrameError>)
    ensures
        is_float_text(line@) ==> (r matches Ok(fr) && fr@ == FrameVal::Double(line@)),
        !is_float_text(line@) && valid_utf8(line@) ==> r == Err::<Frame, ParseFrameError>(
            ParseFrameError::ParseFloatError,
        ),
        !is_float_text(line@) && !valid_utf8(line@) ==> r == Err::<Frame, ParseFrameError>(
            ParseFrameError::Utf8Error,
        ),
{
    if check_float_text(line) {
        Ok(Frame::Double(slice_to_vec(line)))
    } else if utf8_to_string(line).is_some() {
        Err(ParseFrameError::ParseFloatError)
    } else {
        Err(ParseFrameError::Utf8Error)
    }
}

proof fn lemma_list_prepend_empty(r: SpecParseList)
    ensures
        list_prepend(Seq::empty(), 0, r) == r,
{
    match r {
        SpecParseList::Found { items, n } => {
            assert(Seq::<FrameVal>::empty() + items =~= items);
        },
        _ => {},
    }
}

pub proof fn lemma_frames_view_push(items: Seq<Frame>, f: Frame)
    ensures
        frames_view(items.push(f)) == frames_view(items) + seq![f@],
{
    lemma_frames_view(items.push(f));
    lemma_frames_view(items);
    assert forall|i: int| 0 <= i < items.len() + 1 implies frames_view(items.push(f))[i] == (
    frames_view(items) + seq![f@])[i] by {
        if i < items.len() {
            assert(items.push(f)[i] == items[i]);
        } else {
            assert(items.push(f)[i] == f);
        }
    }
    assert(frames_view(items.push(f)) =~= frames_view(items) + seq![f@]);
}

fn parse_array(data: &[u8], hdr: usize, line: &[u8]) -> (r: Result<(Frame, usize), ParseFrameError>)
    requires
        3 <= hdr <= data@.len(),
    ensures
        match dec_unsigned(line@) {
            Option::None => r == Err::<(Frame, usize), ParseFrameError>(
                ParseFrameError::InvalidFormat,
            ),
            Option::Some(count) => match spec_parse_list(data@.skip(hdr as int), count as nat) {
                SpecParseList::Found { items, n } => r matches Ok((fr, end)) && fr@
                    == FrameVal::Array(items) && end == hdr + n && hdr <= end <= data@.len(),
                SpecParseList::Incomplete => r == Err::<(Frame, usize), ParseFrameError>(
                    ParseFrameError::Incomplete,
                ),
                SpecParseList::Fail { e } => r == Err::<(Frame, usize), ParseFrameError>(e),
            },
        },
    decreases data@.len(), 0nat,
{
    let count = match parse_unsigned(line) {
        Some(c) => c,
        None => {
            return Err(ParseFrameError::InvalidFormat);
        },
    };
    let ghost s0 = data@.skip(hdr as int);
    let mut items: Vec<Frame> = Vec::new();
    let mut pos: usize = hdr;
    let mut i: usize = 0;
    proof {
        assert(frames_view(items@) =~= Seq::<FrameVal>::empty());
        lemma_list_prepend_empty(spec_parse_list(s0, count as nat));
    }
    while i < count
        invariant
            3 <= hdr <= pos <= data@.len(),
            i <= count,
            items@.len() == i,
            dec_unsigned(line@) == Some(count),
            s0 == data@.skip(hdr as int),
            spec_parse_list(s0, count as nat) == list_prepend(
                frames_view(items@),
                pos - hdr,
                spec_parse_list(data@.skip(pos as int), (count - i) as nat),
            ),
        decreases count - i,
    {
        let sub = slice_subrange(data, pos, data.len());
        proof {
            assert(sub@ =~= data@.skip(pos as int));
        }
        match parse(sub) {
            Ok((f, n)) => {
                proof {
                    assert(spec_parse(data@.skip(pos as int)) == (SpecParse::Found {
                        v: f@,
                        n: n as int,
                    }));
                    assert(data@.skip(pos as int).skip(n as int) =~= data@.skip(pos + n));
                    lemma_frames_view_push(items@, f);
                    lemma_list_prepend_compose(
                        frames_view(items@),
                        pos - hdr,
                        seq![f@],
                        n as int,
                        spec_parse_list(data@.skip(pos + n), (count - i - 1) as nat),
                    );
                }
                items.push(f);
                pos = pos + n;
                i = i + 1;
            },
            Err(e) => {
                proof {
                    if e is Incomplete {
                        assert(spec_parse(data@.skip(pos as int)) is Incomplete);
                        assert(spec_parse_list(data@.skip(pos as int), (count - i) as nat)
                            is Incomplete);
                    } else {
                        assert(spec_parse(data@.skip(pos as int)) == (SpecParse::Fail { e }));
                        assert(spec_parse_list(data@.skip(pos as int), (count - i) as nat) == (
                        SpecParseList::Fail { e }));
                    }
                }
                return Err(e);
            },
        }
    }
    proof {
        assert(frames_view(items@) + Seq::<FrameVal>::empty() =~= frames_view(items@));
    }
    Ok((Frame::Array(items), pos))
}

fn parse_map(data: &[u8], hdr: usize, line: &[u8]) -> (r: Result<(Frame, usize), ParseFrameError>)
    requires
        3 <= hdr <= data@.len(),
    ensures
        match dec_unsigned(line@) {
            Option::None => r == Err::<(Frame, usize), ParseFrameError>(
                ParseFrameError::InvalidFormat,
            ),
            Option::Some(count) => match spec_parse_list(data@.skip(hdr as int), 2 * count as nat) {
                SpecParseList::Found { items, n } => r matches Ok((fr, end)) && fr@
                    == FrameVal::Mapping(items) && end == hdr + n && hdr <= end <= data@.len(),
                SpecParseList::Incomplete => r == Err::<(Frame, usize), ParseFrameError>(
                    ParseFrameError::Incomplete,
                ),
                SpecParseList::Fail { e } => r == Err::<(Frame, usize), ParseFrameError>(e),
            },
        },
    decreases data@.len(), 0nat,
{
    let count = match parse_unsigned(line) {
        Some(c) => c,
        None => {
            return Err(ParseFrameError::InvalidFormat);
        },
    };
    let ghost s0 = data@.skip(hdr as int);
    let mut items: Vec<Frame> = Vec::new();
    let mut pos: usize = hdr;
    let mut i: usize = 0;
    proof {
        assert(frames_view(items@) =~= Seq::<FrameVal>::empty());
        lemma_list_prepend_empty(spec_parse_list(s0, 2 * count as nat));
    }
    while i < count
        invariant
            3 <= hdr <= pos <= data@.len(),
            i <= count,
            items@.len() == 2 * i,
            dec_unsigned(line@) == Some(count),
            s0 == data@.skip(hdr as int),
            spec_parse_list(s0, 2 * count as nat) == list_prepend(
                frames_view(items@),
                pos - hdr,
                spec_parse_list(data@.skip(pos as int), (2 * count - 2 * i) as nat),
            ),
        decreases count - i,
    {
        let sub = slice_subrange(data, pos, data.len());
        proof {
            assert(sub@ =~= data@.skip(pos as int));
        }
        let (key, nk) = match parse(sub) {
            Ok(p) => p,
            Err(e) => {
                proof {
                    if e is Incomplete {
                        assert(spec_parse(data@.skip(pos as int)) is Incomplete);
                        assert(spec_parse_list(data@.skip(pos as int), (2 * count - 2 * i) as nat)
                            is Incomplete);
                    } else {
                        assert(spec_parse(data@.skip(pos as int)) == (SpecParse::Fail { e }));
                        assert(spec_parse_list(data@.skip(pos as int), (2 * count - 2 * i) as nat)
                            == (SpecParseList::Fail { e }));
                    }
                }
                return Err(e);
            },
        };
        proof {
            assert(spec_parse(data@.skip(pos as int)) == (SpecParse::Found {
                v: key@,
                n: nk as int,
            }));
            assert(data@.skip(pos as int).skip(nk as int) =~= data@.skip(pos + nk));
            lemma_frames_view_push(items@, key);
            lemma_list_prepend_compose(
                frames_view(items@),
                pos - hdr,
                seq![key@],
                nk as int,
                spec_parse_list(data@.skip(pos + nk), (2 * count - 2 * i - 1) as nat),
            );
        }
        items.push(key);
        pos = pos + nk;
        let sub2 = slice_subrange(data, pos, data.len());
        proof {
            assert(sub2@ =~= data@.skip(pos as int));
        }
        let (value, nv) = match parse(sub2) {
            Ok(p) => p,
            Err(e) => {
                proof {
                    if e is Incomplete {
                        assert(spec_parse(data@.skip(pos as int)) is Incomplete);
                        assert(spec_parse_list(
                            data@.skip(pos as int),
                            (2 * count - 2 * i - 1) as nat,
                        ) is Incomplete);
                    } else {
                        assert(spec_parse(data@.skip(pos as int)) == (SpecParse::Fail { e }));
                        assert(spec_parse_list(
                            data@.skip(pos as int),
                            (2 * count - 2 * i - 1) as nat,
                        ) == (SpecParseList::Fail { e }));
                    }
                }
                return Err(e);
            },
        };
        proof {
            assert(spec_parse(data@.skip(pos as int)) == (SpecParse::Found {
                v: value@,
                n: nv as int,
            }));
            assert(data@.skip(pos as int).skip(nv as int) =~= data@.skip(pos + nv));
            lemma_frames_view_push(items@, value);
            lemma_list_prepend_compose(
                frames_view(items@),
                pos - hdr,
                seq![value@],
                nv as int,
                spec_parse_list(data@.skip(pos + nv), (2 * count - 2 * i - 2) as nat),
            );
        }
        items.push(value);
        pos = pos + nv;
        i = i + 1;
    }
    proof {
        assert(frames_view(items@) + Seq::<FrameVal>::empty() =~= frames_view(items@));
    }
    Ok((Frame::Mapping(items), pos))
}

/// A grammar fault never carries the retry signal: `Incomplete` is returned
/// as its own outcome, never inside `Fail`.
pub proof fn lemma_spec_parse_fail_not_incomplete(s: Seq<u8>)
    ensures
        spec_parse(s) matches SpecParse::Fail { e } ==> !(e is Incomplete),
    decreases s.len(), 0nat,
{
    lemma_find_crlf(s, 0);
    let cr = find_crlf(s, 0);
    if cr >= 1 {
        let rest = s.skip(cr + 2);
        let line = s.subrange(1, cr);
        if s[0] == ARRAY_IDENT {
            if let Option::Some(count) = dec_unsigned(line) {
                lemma_spec_parse_list_fail_not_incomplete(rest, count as nat);
            }
        } else if s[0] == MAP_IDENT {
            if let Option::Some(count) = dec_unsigned(line) {
                lemma_spec_parse_list_fail_not_incomplete(rest, 2 * count as nat);
            }
        }
    }
}

pub proof fn lemma_spec_parse_list_fail_not_incomplete(s: Seq<u8>, count: nat)
    ensures
        spec_parse_list(s, count) matches SpecParseList::Fail { e } ==> !(e is Incomplete),
    decreases s.len(), 1nat, count,
{
    if count > 0 {
        lemma_spec_parse_fail_not_incomplete(s);
        match spec_parse(s) {
            SpecParse::Found { v, n } => {
                if 1 <= n <= s.len() {
                    lemma_spec_parse_list_fail_not_incomplete(s.skip(n), (count - 1) as nat);
                }
            },
            _ => {},
        }
    }
}

spec fn parse_post(data: Seq<u8>, r: Result<(Frame, usize), ParseFrameError>) -> bool {
    match r {
        Ok((f, n)) => 3 <= n <= data.len() && spec_parse(data) == (SpecParse::Found {
            v: f@,
            n: n as int,
        }),
        Err(e) => if e is Incomplete {
            spec_parse(data) is Incomplete
        } else {
            spec_parse(data) == (SpecParse::Fail { e })
        },
    }
}

/// Parses the buffered data into one frame.  On success the returned count
/// says how many bytes from the front of `data` the frame spans; an
/// `Incomplete` error asks the caller to buffer more bytes and retry, any
/// other error reports bytes that violate the grammar.
pub fn parse(data: &[u8]) -> (r: Result<(Frame, usize), ParseFrameError>)
    ensures
        match r {
            Ok((f, n)) => 3 <= n <= data@.len() && spec_parse(data@) == (SpecParse::Found {
                v: f@,
                n: n as int,
            }),
            Err(e) => if e is Incomplete {
                spec_parse(data@) is Incomplete
            } else {
                spec_parse(data@) == (SpecParse::Fail { e })
            },
        },
    decreases data@.len(), 1nat,
{
    let cr = match get_line(data) {
        Some(cr) => cr,
        None => {
            return Err(ParseFrameError::Incomplete);
        },
    };
    if cr == 0 {
        return Err(ParseFrameError::InvalidFormat);
    }
    let ident = data[0];
    let line = slice_subrange(data, 1, cr);
    let hdr = cr + 2;
    proof {
        assert(line@ == data@.subrange(1, cr as int));
        assert(data@.skip(hdr as int).len() == data@.len() - hdr);
    }
    if ident == STRING_IDENT {
        let r = parse_string(data, hdr, line);
        proof {
            if let Option::Some(len) = dec_unsigned(line@) {
                if data@.len() - hdr >= len + 2 {
                    assert(data@.skip(hdr as int).take(len as int) =~= data@.subrange(
                        hdr as int,
                        hdr + len,
                    ));
                }
            }
            assert(parse_post(data@, r));
        }
        r
    } else if ident == INTEGER_IDENT {
        let r = match parse_integer(line) {
            Ok(f) => Ok((f, hdr)),
            Err(e) => Err(e),
        };
        proof {
            assert(parse_post(data@, r));
        }
        r
    } else if ident == ARRAY_IDENT {
        let r = parse_array(data, hdr, line);
        proof {
            lemma_spec_parse_fail_not_incomplete(data@);
            assert(parse_post(data@, r));
        }
        r
    } else if ident == BOOLEAN_IDENT {
        let r = match parse_boolean(line) {
            Ok(f) => Ok((f, hdr)),
            Err(e) => Err(e),
        };
        proof {
            assert(parse_post(data@, r));
        }
        r
    } else if ident == NULL_IDENT {
        let r = match parse_null(line) {
            Ok(f) => Ok((f, hdr)),
            Err(e) => Err(e),
        };
        proof {
            assert(parse_post(data@, r));
        }
        r
    } else if ident == MAP_IDENT {
        let r = parse_map(data, hdr, line);
        proof {
            lemma_spec_parse_fail_not_incomplete(data@);
            assert(parse_post(data@, r));
        }
        r
    } else if ident == DOUBLE_IDENT {
        let r = match parse_double(line) {
            Ok(f) => Ok((f, hdr)),
            Err(e) => Err(e),
        };
        proof {
            assert(parse_post(data@, r));
        }
        r
    } else if ident == ERROR_IDENT {
        let r = parse_error(data, hdr, line);
        proof {
            if let Option::Some(len) = dec_unsigned(line@) {
                if data@.len() - hdr >= len + 2 {
                    assert(data@.skip(hdr as int).take(len as int) =~= data@.subrange(
                        hdr as int,
                        hdr + len,
                    ));
                }
            }
            assert(parse_post(data@, r));
        }
        r
    } else {
        Err(ParseFrameError::InvalidFormat)
    }
}

} // verus!
