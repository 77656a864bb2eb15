//! The observable guarantees of the codec, proved once over the spec-level
//! encoder and parser: encoding then decoding returns the same frame, any
//! strict prefix of an encoded frame is reported incomplete rather than
//! malformed or mis-parsed, and a parse result never changes when more bytes
//! arrive behind it.

use vstd::prelude::*;

use crate::codec::SpecParse;
use crate::codec::SpecParseList;
use crate::codec::crlf;
use crate::codec::enc;
use crate::codec::enc_list;
use crate::codec::find_crlf;
use crate::codec::lemma_find_crlf;
use crate::codec::lemma_find_crlf_at;
use crate::codec::lemma_spec_parse_bounds;
use crate::codec::lemma_spec_parse_list_bounds;
use crate::codec::spec_parse;
use crate::codec::spec_parse_list;
use crate::frame::FrameVal;
use crate::frame::frame_wf;
use crate::num::B_CR;
use crate::num::B_LF;
use crate::num::B_MINUS;
use crate::num::B_ONE;
use crate::num::B_ZERO;
use crate::num::all_digits;
use crate::num::dec_rep;
use crate::num::dec_rep_signed;
use crate::num::dec_signed;
use crate::num::dec_unsigned;
use crate::num::is_digit;
use crate::num::lemma_dec_rep_digits;
use crate::num::lemma_dec_value_dec_rep;
use crate::num::lemma_digit_run_full;
use crate::num::lemma_float_text_no_crlf;

verus! {

/// Every encoded frame spans at least a header line.
pub proof fn lemma_enc_len(v: FrameVal)
    ensures
        enc(v).len() >= 3,
{
    match v {
        FrameVal::String(data) => lemma_dec_rep_digits(data.len()),
        FrameVal::Integer(i) => {
            if i < 0 {
                lemma_dec_rep_digits((-(i as int)) as nat);
            } else {
                lemma_dec_rep_digits(i as nat);
            }
        },
        FrameVal::Array(items) => lemma_dec_rep_digits(items.len()),
        FrameVal::Mapping(items) => lemma_dec_rep_digits((items.len() / 2) as nat),
        FrameVal::Error(data) => lemma_dec_rep_digits(data.len()),
        _ => {},
    }
}

/// A frame whose header body holds no carriage return has its header line
/// found exactly at the body's end.
proof fn lemma_header(s: Seq<u8>, ident: u8, body: Seq<u8>, tail: Seq<u8>)
    requires
        s == seq![ident] + body + crlf() + tail,
        ident != B_CR,
        forall|j: int| 0 <= j < body.len() ==> #[trigger] body[j] != B_CR,
    ensures
        find_crlf(s, 0) == 1 + body.len(),
        s.subrange(1, 1 + body.len() as int) == body,
        s.skip(3 + body.len() as int) == tail,
        s[0] == ident,
        s.len() == 3 + body.len() + tail.len(),
{
    let k = 1 + body.len() as int;
    assert(s[k] == B_CR);
    assert(s[k + 1] == B_LF);
    assert forall|j: int| 0 <= j < k implies !(#[trigger] s[j] == B_CR && s[j + 1] == B_LF) by {
        if j > 0 {
            assert(s[j] == body[j - 1]);
        }
    }
    lemma_find_crlf_at(s, 0, k);
    assert(s.subrange(1, k) =~= body);
    assert(s.skip(k + 2) =~= tail);
}

/// Decimal digit headers read back as the number they were written from.
proof fn lemma_dec_header(n: nat)
    requires
        n <= usize::MAX,
    ensures
        dec_unsigned(dec_rep(n)) == Some(n as usize),
        all_digits(dec_rep(n)),
        dec_rep(n).len() >= 1,
        forall|j: int| 0 <= j < dec_rep(n).len() ==> #[trigger] dec_rep(n)[j] != B_CR,
{
    lemma_dec_rep_digits(n);
    lemma_dec_value_dec_rep(n);
    lemma_digit_run_full(dec_rep(n), 0);
    assert(is_digit(dec_rep(n)[0]));
    assert(dec_rep(n).subrange(0, dec_rep(n).len() as int) =~= dec_rep(n));
}

/// Signed decimal headers read back as the value they were written from.
proof fn lemma_dec_header_signed(i: i64)
    ensures
        dec_signed(dec_rep_signed(i)) == Some(i),
        dec_rep_signed(i).len() >= 1,
        forall|j: int| 0 <= j < dec_rep_signed(i).len() ==> #[trigger] dec_rep_signed(i)[j] != B_CR,
{
    let s = dec_rep_signed(i);
    if i >= 0 {
        lemma_dec_rep_digits(i as nat);
        lemma_dec_value_dec_rep(i as nat);
        lemma_digit_run_full(s, 0);
        assert(s.subrange(0, s.len() as int) =~= s);
    } else {
        let mag = (-(i as int)) as nat;
        lemma_dec_rep_digits(mag);
        lemma_dec_value_dec_rep(mag);
        assert(s[0] == B_MINUS);
        assert forall|j: int| 1 <= j < s.len() implies is_digit(#[trigger] s[j]) by {
            assert(s[j] == dec_rep(mag)[j - 1]);
        }
        lemma_digit_run_full(s, 1);
        assert(s.subrange(1, s.len() as int) =~= dec_rep(mag));
        assert(s.skip(1) =~= dec_rep(mag));
    }
}

/// Round trip: parsing an encoded well-formed frame, with any bytes behind
/// it, yields that frame and consumes exactly its encoding.
pub proof fn lemma_enc_parse(v: FrameVal, rest: Seq<u8>)
    requires
        frame_wf(v),
    ensures
        spec_parse(enc(v) + rest) == (SpecParse::Found { v, n: enc(v).len() as int }),
    decreases v,
{
    let s = enc(v) + rest;
    match v {
        FrameVal::String(data) => {
            let body = dec_rep(data.len());
            lemma_dec_header(data.len());
            assert(s =~= seq![crate::frame::STRING_IDENT] + body + crlf() + (data + crlf()
                + rest));
            lemma_header(s, crate::frame::STRING_IDENT, body, data + crlf() + rest);
            let tail = data + crlf() + rest;
            assert(tail.take(data.len() as int) =~= data);
        },
        FrameVal::Integer(i) => {
            let body = dec_rep_signed(i);
            lemma_dec_header_signed(i);
            assert(s =~= seq![crate::frame::INTEGER_IDENT] + body + crlf() + rest);
            lemma_header(s, crate::frame::INTEGER_IDENT, body, rest);
        },
        FrameVal::Array(items) => {
            let body = dec_rep(items.len());
            lemma_dec_header(items.len());
            assert(s =~= seq![crate::frame::ARRAY_IDENT] + body + crlf() + (enc_list(items)
                + rest));
            lemma_header(s, crate::frame::ARRAY_IDENT, body, enc_list(items) + rest);
            lemma_enc_parse_list(items, rest);
        },
        FrameVal::Boolean(b) => {
            let body: Seq<u8> = if b {
                seq![B_ONE]
            } else {
                seq![B_ZERO]
            };
            assert(s =~= seq![crate::frame::BOOLEAN_IDENT] + body + crlf() + rest);
            lemma_header(s, crate::frame::BOOLEAN_IDENT, body, rest);
        },
        FrameVal::Null => {
            let body = Seq::<u8>::empty();
            assert(s =~= seq![crate::frame::NULL_IDENT] + body + crlf() + rest);
            lemma_header(s, crate::frame::NULL_IDENT, body, rest);
        },
        FrameVal::Mapping(items) => {
            let body = dec_rep((items.len() / 2) as nat);
            lemma_dec_header((items.len() / 2) as nat);
            assert(s =~= seq![crate::frame::MAP_IDENT] + body + crlf() + (enc_list(items) + rest));
            lemma_header(s, crate::frame::MAP_IDENT, body, enc_list(items) + rest);
            lemma_enc_parse_list(items, rest);
            assert(2 * ((items.len() / 2) as nat) == items.len());
        },
        FrameVal::Double(text) => {
            lemma_float_text_no_crlf(text);
            assert(s =~= seq![crate::frame::DOUBLE_IDENT] + text + crlf() + rest);
            lemma_header(s, crate::frame::DOUBLE_IDENT, text, rest);
        },
        FrameVal::Error(data) => {
            let body = dec_rep(data.len());
            lemma_dec_header(data.len());
            assert(s =~= seq![crate::frame::ERROR_IDENT] + body + crlf() + (data + crlf() + rest));
            lemma_header(s, crate::frame::ERROR_IDENT, body, data + crlf() + rest);
            let tail = data + crlf() + rest;
            assert(tail.take(data.len() as int) =~= data);
        },
    }
}

proof fn lemma_enc_parse_list(items: Seq<FrameVal>, rest: Seq<u8>)
    requires
        forall|i: int| 0 <= i < items.len() ==> frame_wf(#[trigger] items[i]),
    ensures
        spec_parse_list(enc_list(items) + rest, items.len()) == (SpecParseList::Found {
            items,
            n: enc_list(items).len() as int,
        }),
    decreases items,
{
    if items.len() == 0 {
        assert(items =~= Seq::<FrameVal>::empty());
    } else {
        let first = items[0];
        let tail = items.drop_first();
        let s = enc_list(items) + rest;
        assert(s =~= enc(first) + (enc_list(tail) + rest));
        lemma_enc_parse(first, enc_list(tail) + rest);
        lemma_enc_len(first);
        let n0 = enc(first).len() as int;
        assert(spec_parse(s) == (SpecParse::Found { v: first, n: n0 }));
        assert(s.skip(n0) =~= enc_list(tail) + rest);
        lemma_enc_parse_list(tail, rest);
        assert(seq![first] + tail =~= items);
    }
}

/// Locality: a parsed frame is decided by the bytes it spans; the same
/// prefix in any buffer long enough parses to the same frame.
pub proof fn lemma_parse_locality(s: Seq<u8>, t: Seq<u8>, v: FrameVal, n: int)
    requires
        spec_parse(s) == (SpecParse::Found { v, n }),
        n <= t.len(),
        t.take(n) == s.take(n),
    ensures
        spec_parse(t) == (SpecParse::Found { v, n }),
    decreases s.len(), 0nat,
{
    lemma_find_crlf(s, 0);
    lemma_spec_parse_bounds(s);
    let cr = find_crlf(s, 0);
    let hdr = cr + 2;
    assert forall|j: int| 0 <= j < n implies t[j] == s[j] by {
        assert(t.take(n)[j] == t[j]);
        assert(s.take(n)[j] == s[j]);
        assert(t.take(n)[j] == s.take(n)[j]);
    }
    assert forall|j: int| 0 <= j < cr implies !(#[trigger] t[j] == B_CR && t[j + 1] == B_LF) by {
        assert(t[j] == s[j] && t[j + 1] == s[j + 1]);
    }
    lemma_find_crlf_at(t, 0, cr);
    assert(t.subrange(1, cr) =~= s.subrange(1, cr));
    let line = s.subrange(1, cr);
    let rests = s.skip(hdr);
    let restt = t.skip(hdr);
    if s[0] == crate::frame::STRING_IDENT || s[0] == crate::frame::ERROR_IDENT {
        let len = dec_unsigned(line).unwrap() as int;
        assert(restt.take(len) =~= rests.take(len)) by {
            assert(forall|j: int| 0 <= j < len ==> restt[j] == s[hdr + j] && rests[j] == s[hdr
                + j]);
        }
    } else if s[0] == crate::frame::ARRAY_IDENT || s[0] == crate::frame::MAP_IDENT {
        let count: nat = if s[0] == crate::frame::ARRAY_IDENT {
            dec_unsigned(line).unwrap() as nat
        } else {
            2 * dec_unsigned(line).unwrap() as nat
        };
        if let SpecParseList::Found { items, n: m } = spec_parse_list(rests, count) {
            assert(restt.take(m) =~= rests.take(m)) by {
                assert(forall|j: int| 0 <= j < m ==> restt[j] == s[hdr + j] && rests[j] == s[hdr
                    + j]);
            }
            lemma_parse_list_locality(rests, restt, items, m, count);
        }
    }
}

proof fn lemma_parse_list_locality(s: Seq<u8>, t: Seq<u8>, items: Seq<FrameVal>, m: int, count: nat)
    requires
        spec_parse_list(s, count) == (SpecParseList::Found { items, n: m }),
        m <= t.len(),
        t.take(m) == s.take(m),
    ensures
        spec_parse_list(t, count) == (SpecParseList::Found { items, n: m }),
    decreases s.len(), 1nat, count,
{
    if count > 0 {
        lemma_spec_parse_bounds(s);
        if let SpecParse::Found { v: v1, n: n1 } = spec_parse(s) {
            lemma_spec_parse_list_bounds(s.skip(n1), (count - 1) as nat);
            if let SpecParseList::Found { items: items2, n: m2 } = spec_parse_list(
                s.skip(n1),
                (count - 1) as nat,
            ) {
                assert(t.take(n1) =~= s.take(n1)) by {
                    assert(forall|j: int| 0 <= j < n1 ==> t.take(m)[j] == s.take(m)[j]);
                }
                lemma_parse_locality(s, t, v1, n1);
                assert(t.skip(n1).take(m - n1) =~= s.skip(n1).take(m - n1)) by {
                    assert(forall|j: int|
                        0 <= j < m - n1 ==> #[trigger] t.skip(n1)[j] == t.take(m)[n1 + j]
                            && s.skip(n1)[j] == s.take(m)[n1 + j]);
                }
                lemma_parse_list_locality(
                    s.skip(n1),
                    t.skip(n1),
                    items2,
                    m - n1,
                    (count - 1) as nat,
                );
            }
        }
    }
}

/// Truncation: every strict prefix of the bytes a parsed frame spans is
/// reported incomplete, never malformed and never a different frame.
pub proof fn lemma_parse_prefix(s: Seq<u8>, v: FrameVal, n: int, m: int)
    requires
        spec_parse(s) == (SpecParse::Found { v, n }),
        0 <= m < n,
    ensures
        spec_parse(s.take(m)) is Incomplete,
    decreases s.len(), 0nat,
{
    lemma_find_crlf(s, 0);
    lemma_spec_parse_bounds(s);
    let cr = find_crlf(s, 0);
    let hdr = cr + 2;
    let p = s.take(m);
    if m < hdr {
        lemma_find_crlf(p, 0);
        let r = find_crlf(p, 0);
        if r >= 0 {
            assert(p[r] == s[r] && p[r + 1] == s[r + 1]);
            assert(false);
        }
    } else {
        assert forall|j: int| 0 <= j < cr implies !(#[trigger] p[j] == B_CR && p[j + 1] == B_LF) by {
            assert(p[j] == s[j] && p[j + 1] == s[j + 1]);
        }
        assert(p[cr] == s[cr] && p[cr + 1] == s[cr + 1]);
        lemma_find_crlf_at(p, 0, cr);
        assert(p.subrange(1, cr) =~= s.subrange(1, cr));
        let line = s.subrange(1, cr);
        let rests = s.skip(hdr);
        let restp = p.skip(hdr);
        if s[0] == crate::frame::ARRAY_IDENT || s[0] == crate::frame::MAP_IDENT {
            let count: nat = if s[0] == crate::frame::ARRAY_IDENT {
                dec_unsigned(line).unwrap() as nat
            } else {
                2 * dec_unsigned(line).unwrap() as nat
            };
            if let SpecParseList::Found { items, n: ml } = spec_parse_list(rests, count) {
                assert(restp =~= rests.take(m - hdr)) by {
                    assert(forall|j: int| 0 <= j < m - hdr ==> restp[j] == s[hdr + j] && rests[j]
                        == s[hdr + j]);
                }
                lemma_parse_list_prefix(rests, items, ml, m - hdr, count);
            }
        }
    }
}

proof fn lemma_parse_list_prefix(s: Seq<u8>, items: Seq<FrameVal>, ml: int, k: int, count: nat)
    requires
        spec_parse_list(s, count) == (SpecParseList::Found { items, n: ml }),
        0 <= k < ml,
    ensures
        spec_parse_list(s.take(k), count) is Incomplete,
    decreases s.len(), 1nat, count,
{
    lemma_spec_parse_bounds(s);
    if let SpecParse::Found { v: v1, n: n1 } = spec_parse(s) {
        lemma_spec_parse_list_bounds(s.skip(n1), (count - 1) as nat);
        if let SpecParseList::Found { items: items2, n: m2 } = spec_parse_list(
            s.skip(n1),
            (count - 1) as nat,
        ) {
            if k < n1 {
                lemma_parse_prefix(s, v1, n1, k);
            } else {
                assert(s.take(k).take(n1) =~= s.take(n1));
                lemma_parse_locality(s, s.take(k), v1, n1);
                assert(s.take(k).skip(n1) =~= s.skip(n1).take(k - n1));
                lemma_parse_list_prefix(s.skip(n1), items2, m2, k - n1, (count - 1) as nat);
            }
        }
    }
}

/// Every frame the parser produces is well formed: maps have an even inner
/// count, doubles hold valid float text, every header length fits the
/// machine.
pub proof fn lemma_parse_wf(s: Seq<u8>, v: FrameVal, n: int)
    requires
        spec_parse(s) == (SpecParse::Found { v, n }),
    ensures
        frame_wf(v),
    decreases s.len(), 0nat,
{
    lemma_find_crlf(s, 0);
    let cr = find_crlf(s, 0);
    let hdr = cr + 2;
    let line = s.subrange(1, cr);
    let rests = s.skip(hdr);
    if s[0] == crate::frame::ARRAY_IDENT {
        let count = dec_unsigned(line).unwrap() as nat;
        lemma_spec_parse_list_bounds(rests, count);
        if let SpecParseList::Found { items, n: m } = spec_parse_list(rests, count) {
            lemma_parse_list_wf(rests, items, m, count);
        }
    } else if s[0] == crate::frame::MAP_IDENT {
        let count = 2 * dec_unsigned(line).unwrap() as nat;
        lemma_spec_parse_list_bounds(rests, count);
        if let SpecParseList::Found { items, n: m } = spec_parse_list(rests, count) {
            lemma_parse_list_wf(rests, items, m, count);
        }
    }
}

proof fn lemma_parse_list_wf(s: Seq<u8>, items: Seq<FrameVal>, m: int, count: nat)
    requires
        spec_parse_list(s, count) == (SpecParseList::Found { items, n: m }),
    ensures
        forall|i: int| 0 <= i < items.len() ==> frame_wf(#[trigger] items[i]),
    decreases s.len(), 1nat, count,
{
    if count > 0 {
        lemma_spec_parse_bounds(s);
        if let SpecParse::Found { v: v1, n: n1 } = spec_parse(s) {
            lemma_parse_wf(s, v1, n1);
            if let SpecParseList::Found { items: items2, n: m2 } = spec_parse_list(
                s.skip(n1),
                (count - 1) as nat,
            ) {
                lemma_parse_list_wf(s.skip(n1), items2, m2, (count - 1) as nat);
                assert forall|i: int| 0 <= i < items.len() implies frame_wf(
                    #[trigger] items[i],
                ) by {
                    if i > 0 {
                        assert(items[i] == items2[i - 1]);
                    }
                }
            }
        }
    }
}

/// Round trip: decoding the encoding of any well-formed frame returns that
/// frame, consuming exactly the encoded bytes.
pub proof fn lemma_round_trip(v: FrameVal)
    requires
        frame_wf(v),
    ensures
        spec_parse(enc(v)) == (SpecParse::Found { v, n: enc(v).len() as int }),
{
    lemma_enc_parse(v, Seq::empty());
    assert(enc(v) + Seq::<u8>::empty() =~= enc(v));
}

/// Truncation: decoding any strict prefix of a valid encoded frame yields
/// the incomplete signal, never a malformed-frame error and never a
/// spuriously successful parse.
pub proof fn lemma_truncation(v: FrameVal, m: int)
    requires
        frame_wf(v),
        0 <= m < enc(v).len(),
    ensures
        spec_parse(enc(v).take(m)) is Incomplete,
{
    lemma_round_trip(v);
    lemma_parse_prefix(enc(v), v, enc(v).len() as int, m);
}

/// Incremental delivery: however the bytes of a stream arrive, every buffer
/// state that cuts a parsed frame short is reported incomplete, and every
/// buffer state that covers it parses to the very same frame.
pub proof fn lemma_incremental_delivery(full: Seq<u8>, k: int, v: FrameVal, n: int)
    requires
        spec_parse(full) == (SpecParse::Found { v, n }),
        0 <= k <= full.len(),
    ensures
        k < n ==> spec_parse(full.take(k)) is Incomplete,
        k >= n ==> spec_parse(full.take(k)) == (SpecParse::Found { v, n }),
    decreases 0int,
{
    lemma_spec_parse_bounds(full);
    if k < n {
        lemma_parse_prefix(full, v, n, k);
    } else {
        assert(full.take(k).take(n) =~= full.take(n));
        lemma_parse_locality(full, full.take(k), v, n);
    }
}

} // verus!
