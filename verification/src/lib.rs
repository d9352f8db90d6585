//! A lightweight JSON value position extractor.
//!
//! Returns a [`Span`] (start/end byte offsets) rather than a parsed value, so
//! the caller decides how to use the original string.
//!
//! Object navigation only: arrays at the top level or as a path step give an
//! error for which `Error::is_unsupported_array` holds. Values are not
//! validated; only their position is extracted.
use vstd::prelude::*;
use vstd::string::StringSliceAdditionalSpecFns;

pub mod agreement;
pub mod boundary;
pub mod chars;
pub mod cursor;
pub mod error;
pub mod grammar;
pub mod parser;
pub mod scanner;
pub mod span;

pub use error::Error;
pub use span::{Span, Value};

use chars::{COLON, DOT, LBRACE, LBRACKET, QUOTE, RBRACE};
use error::Kind;
use grammar::is_number_byte;
use parser::{
    field_at_quote, find_path, found_ok, lemma_path_search, lemma_path_search_concat,
    lemma_split_dot_append, lemma_split_dot_concat, lemma_split_dot_nonempty, members_search,
    path_find, path_search, segment_search, shift2, span_agrees, split_dot, value_after_colon,
};
use scanner::{
    index_of, lemma_index_of, lemma_ws_len, primitive_scan, skip_whitespace, string_body_end,
    string_scan, token_len, value_scan, whitespace_scan, ws_len,
};
use span::{classify_spec, false_bytes, null_bytes, true_bytes, ValueModel};
use span::value_readable;

verus! {

/// What `find` answers for the dotted path `pattern` in the JSON text `data`:
/// past leading whitespace, an object is searched, an array is not supported,
/// and anything else holds no field.
pub open spec fn find_spec(pattern: Seq<u8>, data: Seq<u8>) -> Result<(int, int), Kind> {
    match whitespace_scan(data) {
        Err(e) => Err(e),
        Ok(w) => if data[w] == LBRACE {
            shift2(path_find(data.skip(w), pattern), w)
        } else if data[w] == LBRACKET {
            Err(Kind::UnsupportedArray)
        } else {
            Err(Kind::NotFound)
        },
    }
}

/// Finds the value at the dotted path `pattern` (`"a.b.c"`) in the JSON text
/// `data` and returns where it lies.
pub fn find(pattern: &str, data: &str) -> (r: Result<Span, Error>)
    ensures
        span_agrees(r, find_spec(pattern.spec_bytes(), data.spec_bytes())),
        r matches Ok(span) ==> value_readable(data.spec_bytes(), span@.0, span@.1),
{
    let bytes = data.as_bytes();
    let start = match skip_whitespace(bytes) {
        Ok(start) => start,
        Err(e) => return Err(e),
    };
    proof {
        lemma_ws_len(bytes@);
    }
    if bytes[start] == LBRACE {
        let inner = &bytes[start..bytes.len()];
        match find_path(inner, pattern) {
            Ok(span) => {
                proof {
                    lemma_found_in_text(data, start as int, span@.0, span@.1, pattern.spec_bytes());
                }
                Ok(Span::new(start + span.start(), start + span.end()))
            },
            Err(e) => Err(e),
        }
    } else if bytes[start] == LBRACKET {
        Err(Error::unsupported_array())
    } else {
        Err(Error::not_found())
    }
}

/// Finding `p.k` is finding `p`, then looking up the field `k` in the value
/// found there, for a key `k` without dots.
pub proof fn find_extends_path(pattern: Seq<u8>, key: Seq<u8>, data: Seq<u8>)
    requires
        index_of(key, DOT) is None,
    ensures
        find_spec(pattern + seq![DOT] + key, data) == match find_spec(pattern, data) {
            Ok((s, e)) => shift2(segment_search(data.subrange(s, e), key), s),
            Err(x) => Err(x),
        },
{
    lemma_split_dot_append(pattern, key);
    if let Ok(w) = whitespace_scan(data) {
        lemma_ws_len(data);
        if data[w] == LBRACE {
            let b = data.skip(w);
            lemma_path_search_concat(b, split_dot(pattern), seq![key], 0, b.len() as int);
            if let Ok((s, e)) = path_find(b, pattern) {
                lemma_split_dot_nonempty(pattern);
                lemma_path_search(b, split_dot(pattern), 0, b.len() as int);
                assert(b.subrange(s, e) =~= data.subrange(s + w, e + w));
                assert(seq![key].drop_first() =~= Seq::<Seq<u8>>::empty());
                assert(path_search(b, seq![key], s, e) == shift2(
                    segment_search(b.subrange(s, e), key),
                    s,
                )) by {
                    reveal_with_fuel(path_search, 2);
                }
            }
        }
    }
}

/// The text `{"a": t}`.
pub open spec fn field_a_holding(t: Seq<u8>) -> Seq<u8> {
    seq![0x7bu8, 0x22, 0x61, 0x22, 0x3a, 0x20] + t + seq![0x7du8]
}

/// A number's text as the value of a field is found whole, and read as a
/// number of that very text.
pub proof fn number_text_is_found_whole(t: Seq<u8>)
    requires
        t.len() > 0,
        forall|i: int| 0 <= i < t.len() ==> is_number_byte(#[trigger] t[i]),
    ensures
        find_spec(seq![0x61u8], field_a_holding(t)) == Ok::<(int, int), Kind>((6, 6 + t.len() as int)),
        classify_spec(field_a_holding(t).subrange(6, 6 + t.len() as int)) == ValueModel::Number(t),
{
    let key = seq![0x61u8];
    let d = field_a_holding(t);
    let n = t.len() as int;
    assert(d.len() == n + 7);
    assert(d[0] == LBRACE);
    assert(ws_len(d) == 0);
    assert(d.skip(0) =~= d);
    // the path is the one key
    lemma_index_of(key, DOT);
    assert(split_dot(key) == seq![key]);
    // the field name
    let s1 = d.skip(1);
    assert(s1[0] == QUOTE);
    assert(index_of(s1, QUOTE) == Some(0int));
    assert(s1.skip(0) =~= s1);
    assert(s1.skip(1)[0] == 0x61u8);
    assert(s1.skip(1).skip(1) =~= d.skip(3));
    assert(d.skip(3)[0] == QUOTE);
    assert(string_body_end(d.skip(3)) == Some(0int));
    assert(string_body_end(s1.skip(1)) == Some(1int));
    assert(string_scan(s1) == Ok::<int, Kind>(3));
    assert(s1.subrange(1, 2) =~= key);
    assert(field_at_quote(s1, key) == Ok::<(bool, int), Kind>((true, 3)));
    // the value after the colon
    let s2 = s1.skip(3);
    assert(s2 =~= d.skip(4));
    assert(s2[0] == COLON);
    assert(index_of(s2, COLON) == Some(0int));
    let s3 = s2.skip(1);
    assert(s3 =~= d.skip(5));
    let v = d.skip(6);
    assert(s3.skip(1) =~= v);
    assert(v =~= t + seq![0x7du8]);
    assert(v[0] == t[0]);
    assert(ws_len(v) == 0);
    assert(ws_len(s3) == 1);
    assert(whitespace_scan(s3) == Ok::<int, Kind>(1));
    assert(s2.skip(2int) =~= v);
    lemma_token_len_of_token(t, seq![0x7du8]);
    assert(token_len(seq![0x7du8]) == 0);
    assert(v[n] == RBRACE);
    assert(primitive_scan(v) == Ok::<int, Kind>(n));
    assert(value_scan(v) == Ok::<int, Kind>(n));
    assert(value_after_colon(s2) == Ok::<(int, int), Kind>((2, n)));
    assert(members_search(s1, key) == Ok::<(int, int), Kind>((5, 5 + n)));
    assert(segment_search(d, key) == Ok::<(int, int), Kind>((6, 6 + n)));
    assert(d.subrange(0, d.len() as int) =~= d);
    assert(path_search(d, seq![key], 0, d.len() as int) == Ok::<(int, int), Kind>((6, 6 + n)))
        by {
        reveal_with_fuel(path_search, 2);
    }
    // reading it
    let text = d.subrange(6, 6 + n);
    assert(text =~= t);
    assert(text != true_bytes() && text != false_bytes() && text != null_bytes()) by {
        assert(true_bytes()[0] == 0x74u8);
        assert(false_bytes()[0] == 0x66u8);
        assert(null_bytes()[0] == 0x6eu8);
    }
}

/// A text whose first byte past ASCII whitespace is `[` is an array at the
/// top level: every search in it is not supported, whatever the array holds.
pub proof fn top_level_arrays_are_unsupported(pattern: Seq<u8>, data: Seq<u8>, w: int)
    requires
        0 <= w < data.len(),
        forall|j: int|
            0 <= j < w ==> {
                let c = #[trigger] data[j];
                c == 0x20 || c == 0x09 || c == 0x0a || c == 0x0c || c == 0x0d
            },
        data[w] == 0x5bu8,
    ensures
        find_spec(pattern, data) == Err::<(int, int), Kind>(Kind::UnsupportedArray),
{
    lemma_ws_len(data);
}

/// A path that goes on from a value that is an array is not supported,
/// whatever the array holds and whatever keys follow.
pub proof fn paths_through_arrays_are_unsupported(p: Seq<u8>, q: Seq<u8>, data: Seq<u8>)
    requires
        find_spec(p, data) matches Ok((s, e)) && data[s] == 0x5bu8,
    ensures
        find_spec(p + seq![DOT] + q, data) == Err::<(int, int), Kind>(Kind::UnsupportedArray),
{
    let w = whitespace_scan(data)->Ok_0;
    lemma_ws_len(data);
    let d = data.skip(w);
    lemma_split_dot_concat(p, q);
    lemma_split_dot_nonempty(p);
    lemma_split_dot_nonempty(q);
    lemma_path_search_concat(d, split_dot(p), split_dot(q), 0, d.len() as int);
    lemma_path_search(d, split_dot(p), 0, d.len() as int);
    let (s, e) = path_find(d, p)->Ok_0;
    assert(d.subrange(s, e)[0] == data[s + w]);
    reveal_with_fuel(path_search, 1);
}

proof fn lemma_token_len_of_token(t: Seq<u8>, x: Seq<u8>)
    requires
        forall|i: int| 0 <= i < t.len() ==> is_number_byte(#[trigger] t[i]),
    ensures
        token_len(t + x) == t.len() + token_len(x),
    decreases t.len(),
{
    if t.len() == 0 {
        assert(t + x =~= x);
    } else {
        assert((t + x)[0] == t[0]);
        assert((t + x).skip(1) =~= t.skip(1) + x);
        assert forall|i: int| 0 <= i < t.skip(1).len() implies is_number_byte(
            #[trigger] t.skip(1)[i],
        ) by {
            assert(t.skip(1)[i] == t[i + 1]);
        }
        lemma_token_len_of_token(t.skip(1), x);
    }
}

proof fn lemma_found_in_text(data: &str, w: int, s: int, e: int, pattern: Seq<u8>)
    requires
        0 <= w < data.spec_bytes().len() <= usize::MAX,
        path_find(data.spec_bytes().skip(w), pattern) == Ok::<(int, int), Kind>((s, e)),
    ensures
        s + w <= usize::MAX,
        e + w <= usize::MAX,
        value_readable(data.spec_bytes(), s + w, e + w),
{
    let b = data.spec_bytes();
    let sub = b.skip(w);
    lemma_split_dot_nonempty(pattern);
    lemma_path_search(sub, split_dot(pattern), 0, sub.len() as int);
    assert(found_ok(sub, s, e));
    assert(sub[s - 1] == b[w + s - 1]);
    assert(sub[s] == b[w + s]);
    assert(sub[e - 1] == b[w + e - 1]);
    if e < sub.len() {
        assert(sub[e] == b[w + e]);
    }
    span::lemma_found_is_readable(data, s + w, e + w);
}

} // verus!
