//! Scanners over a byte slice: each one measures the JSON token that starts
//! at the beginning of the slice it is handed.
use vstd::prelude::*;

use crate::chars::{
    ascii_ws, delimiter, is_ascii_ws, is_delimiter, is_json_ws, json_ws, BACKSLASH, LBRACE,
    LBRACKET, QUOTE, RBRACE, RBRACKET,
};
use crate::error::{Error, Kind};

verus! {

/// `r`, with every offset it carries moved by `k`.
pub open spec fn shift(r: Result<int, Kind>, k: int) -> Result<int, Kind> {
    match r {
        Ok(n) => Ok(n + k),
        Err(e) => Err(e),
    }
}

pub open spec fn shift_opt(r: Option<int>, k: int) -> Option<int> {
    match r {
        Some(n) => Some(n + k),
        None => None,
    }
}

/// An executable result agrees with a spec result: the same offset, or an
/// error of the same kind.
pub open spec fn agrees(r: Result<usize, Error>, s: Result<int, Kind>) -> bool {
    match (r, s) {
        (Ok(a), Ok(b)) => a as int == b,
        (Err(e), Err(k)) => e@ == k,
        _ => false,
    }
}

/// The index of the first `x` in `s`.
pub open spec fn index_of(s: Seq<u8>, x: u8) -> Option<int>
    decreases s.len(),
{
    if s.len() == 0 {
        None
    } else if s[0] == x {
        Some(0)
    } else {
        shift_opt(index_of(s.skip(1), x), 1)
    }
}

/// The number of ASCII whitespace bytes `s` starts with.
pub open spec fn ws_len(s: Seq<u8>) -> int
    decreases s.len(),
{
    if s.len() == 0 || !is_ascii_ws(s[0]) {
        0
    } else {
        1 + ws_len(s.skip(1))
    }
}

/// The number of bytes `s` starts with that are neither a delimiter nor JSON whitespace.
pub open spec fn token_len(s: Seq<u8>) -> int
    decreases s.len(),
{
    if s.len() == 0 || is_delimiter(s[0]) || is_json_ws(s[0]) {
        0
    } else {
        1 + token_len(s.skip(1))
    }
}

/// Inside a string body `s` (the bytes after the opening quote), the index of
/// the closing quote. A backslash hides the byte after it.
pub open spec fn string_body_end(s: Seq<u8>) -> Option<int>
    decreases s.len(),
{
    if s.len() == 0 {
        None
    } else if s[0] == QUOTE {
        Some(0)
    } else if s[0] == BACKSLASH {
        if s.len() <= 2 {
            None
        } else {
            shift_opt(string_body_end(s.skip(2)), 2)
        }
    } else {
        shift_opt(string_body_end(s.skip(1)), 1)
    }
}

/// The length of the string literal `s` starts with, closing quote included.
pub open spec fn string_scan(s: Seq<u8>) -> Result<int, Kind> {
    if s.len() == 0 || s[0] != QUOTE {
        Err(Kind::InvalidJson)
    } else {
        match string_body_end(s.skip(1)) {
            Some(q) => Ok(q + 2),
            None => Err(Kind::UnterminatedString),
        }
    }
}

/// Inside an array, at nesting `depth`, the number of bytes of `s` up to and
/// including the `]` that closes it. Strings are skipped whole.
pub open spec fn array_rest(s: Seq<u8>, depth: nat) -> Result<int, Kind>
    decreases s.len(),
{
    if depth == 0 {
        Ok(0)
    } else if s.len() == 0 {
        Err(Kind::UnmatchedBracket)
    } else if s[0] == QUOTE {
        match string_scan(s) {
            Ok(n) => {
                proof {
                    lemma_string_scan(s);
                }
                shift(array_rest(s.skip(n), depth), n)
            },
            Err(e) => Err(e),
        }
    } else if s[0] == LBRACKET {
        shift(array_rest(s.skip(1), depth + 1), 1)
    } else if s[0] == RBRACKET {
        shift(array_rest(s.skip(1), (depth - 1) as nat), 1)
    } else {
        shift(array_rest(s.skip(1), depth), 1)
    }
}

/// The length of the array `s` starts with, brackets included.
pub open spec fn array_scan(s: Seq<u8>) -> Result<int, Kind> {
    if s.len() == 0 || s[0] != LBRACKET {
        Err(Kind::InvalidJson)
    } else {
        shift(array_rest(s.skip(1), 1), 1)
    }
}

/// Inside an object, at nesting `depth`, the number of bytes of `s` up to and
/// including the `}` that closes it. Strings and arrays are skipped whole.
pub open spec fn object_rest(s: Seq<u8>, depth: nat) -> Result<int, Kind>
    decreases s.len(),
{
    if depth == 0 {
        Ok(0)
    } else if s.len() == 0 {
        Err(Kind::UnmatchedBracket)
    } else if s[0] == QUOTE {
        match string_scan(s) {
            Ok(n) => {
                proof {
                    lemma_string_scan(s);
                }
                shift(object_rest(s.skip(n), depth), n)
            },
            Err(e) => Err(e),
        }
    } else if s[0] == LBRACKET {
        match array_scan(s) {
            Ok(n) => {
                proof {
                    lemma_array_scan(s);
                }
                shift(object_rest(s.skip(n), depth), n)
            },
            Err(e) => Err(e),
        }
    } else if s[0] == LBRACE {
        shift(object_rest(s.skip(1), depth + 1), 1)
    } else if s[0] == RBRACE {
        shift(object_rest(s.skip(1), (depth - 1) as nat), 1)
    } else {
        shift(object_rest(s.skip(1), depth), 1)
    }
}

/// The length of the object `s` starts with, braces included.
pub open spec fn object_scan(s: Seq<u8>) -> Result<int, Kind> {
    if s.len() == 0 || s[0] != LBRACE {
        Err(Kind::InvalidJson)
    } else {
        shift(object_rest(s.skip(1), 1), 1)
    }
}

/// The length of the bare value (number, literal) `s` starts with. It ends at
/// a delimiter, at JSON whitespace or at the end; whitespace must then be
/// followed by a delimiter or by the end.
pub open spec fn primitive_scan(s: Seq<u8>) -> Result<int, Kind> {
    let t = token_len(s);
    if t < s.len() && is_json_ws(s[t]) && t + ws_len(s.skip(t)) < s.len() && !is_delimiter(
        s[t + ws_len(s.skip(t))],
    ) {
        Err(Kind::InvalidJson)
    } else if t == 0 {
        Err(Kind::InvalidJson)
    } else {
        Ok(t)
    }
}

/// The number of ASCII whitespace bytes before the first other byte; an error
/// when there is no other byte.
pub open spec fn whitespace_scan(s: Seq<u8>) -> Result<int, Kind> {
    if ws_len(s) < s.len() {
        Ok(ws_len(s))
    } else {
        Err(Kind::InvalidJson)
    }
}

/// The length of the value `s` starts with, by its first byte.
pub open spec fn value_scan(s: Seq<u8>) -> Result<int, Kind> {
    if s.len() > 0 && s[0] == LBRACKET {
        array_scan(s)
    } else if s.len() > 0 && s[0] == LBRACE {
        object_scan(s)
    } else if s.len() > 0 && s[0] == QUOTE {
        string_scan(s)
    } else {
        primitive_scan(s)
    }
}

/// Where a value of `n` bytes at the start of `s` ends, an ASCII byte is
/// beside the end: the last byte of the value, or the byte after it.
pub open spec fn ends_beside_ascii(s: Seq<u8>, n: int) -> bool {
    n == s.len() || s[n - 1] < 0x80 || s[n] < 0x80
}

// ---------------------------------------------------------------------------
// Facts about the definitions above.

pub proof fn lemma_index_of(s: Seq<u8>, x: u8)
    ensures
        match index_of(s, x) {
            Some(i) => 0 <= i < s.len() && s[i] == x && forall|j: int| 0 <= j < i ==> s[j] != x,
            None => forall|j: int| 0 <= j < s.len() ==> s[j] != x,
        },
    decreases s.len(),
{
    if s.len() > 0 && s[0] != x {
        lemma_index_of(s.skip(1), x);
        assert forall|j: int| 1 <= j < s.len() implies s[j] == s.skip(1)[j - 1] by {}
    }
}

pub proof fn lemma_ws_len(s: Seq<u8>)
    ensures
        0 <= ws_len(s) <= s.len(),
        forall|j: int| 0 <= j < ws_len(s) ==> is_ascii_ws(#[trigger] s[j]),
        ws_len(s) < s.len() ==> !is_ascii_ws(s[ws_len(s)]),
    decreases s.len(),
{
    if s.len() > 0 && is_ascii_ws(s[0]) {
        lemma_ws_len(s.skip(1));
        assert forall|j: int| 1 <= j < s.len() implies s[j] == s.skip(1)[j - 1] by {}
    }
}

pub proof fn lemma_token_len(s: Seq<u8>)
    ensures
        0 <= token_len(s) <= s.len(),
        forall|j: int|
            0 <= j < token_len(s) ==> !is_delimiter(#[trigger] s[j]) && !is_json_ws(s[j]),
        token_len(s) < s.len() ==> is_delimiter(s[token_len(s)]) || is_json_ws(s[token_len(s)]),
    decreases s.len(),
{
    if s.len() > 0 && !is_delimiter(s[0]) && !is_json_ws(s[0]) {
        lemma_token_len(s.skip(1));
        assert forall|j: int| 1 <= j < s.len() implies s[j] == s.skip(1)[j - 1] by {}
    }
}

pub proof fn lemma_string_body_end(s: Seq<u8>)
    ensures
        string_body_end(s) matches Some(q) ==> 0 <= q < s.len() && s[q] == QUOTE,
    decreases s.len(),
{
    if s.len() > 0 && s[0] != QUOTE {
        if s[0] == BACKSLASH {
            if s.len() > 2 {
                lemma_string_body_end(s.skip(2));
            }
        } else {
            lemma_string_body_end(s.skip(1));
        }
    }
}

pub proof fn lemma_string_scan(s: Seq<u8>)
    ensures
        string_scan(s) matches Ok(n) ==> 2 <= n <= s.len() && s[n - 1] == QUOTE,
{
    if s.len() > 0 && s[0] == QUOTE {
        lemma_string_body_end(s.skip(1));
    }
}

pub proof fn lemma_array_rest(s: Seq<u8>, depth: nat)
    ensures
        array_rest(s, depth) matches Ok(n) ==> 0 <= n <= s.len() && (depth > 0 ==> n >= 1 && s[n
            - 1] == RBRACKET),
    decreases s.len(),
{
    if depth > 0 && s.len() > 0 {
        if s[0] == QUOTE {
            lemma_string_scan(s);
            if let Ok(n) = string_scan(s) {
                lemma_array_rest(s.skip(n), depth);
            }
        } else if s[0] == LBRACKET {
            lemma_array_rest(s.skip(1), depth + 1);
        } else if s[0] == RBRACKET {
            lemma_array_rest(s.skip(1), (depth - 1) as nat);
        } else {
            lemma_array_rest(s.skip(1), depth);
        }
    }
}

pub proof fn lemma_array_scan(s: Seq<u8>)
    ensures
        array_scan(s) matches Ok(n) ==> 2 <= n <= s.len() && s[n - 1] == RBRACKET,
{
    if s.len() > 0 && s[0] == LBRACKET {
        lemma_array_rest(s.skip(1), 1);
    }
}

pub proof fn lemma_object_rest(s: Seq<u8>, depth: nat)
    ensures
        object_rest(s, depth) matches Ok(n) ==> 0 <= n <= s.len() && (depth > 0 ==> n >= 1
            && s[n - 1] == RBRACE),
    decreases s.len(),
{
    if depth > 0 && s.len() > 0 {
        if s[0] == QUOTE {
            lemma_string_scan(s);
            if let Ok(n) = string_scan(s) {
                lemma_object_rest(s.skip(n), depth);
            }
        } else if s[0] == LBRACKET {
            lemma_array_scan(s);
            if let Ok(n) = array_scan(s) {
                lemma_object_rest(s.skip(n), depth);
            }
        } else if s[0] == LBRACE {
            lemma_object_rest(s.skip(1), depth + 1);
        } else if s[0] == RBRACE {
            lemma_object_rest(s.skip(1), (depth - 1) as nat);
        } else {
            lemma_object_rest(s.skip(1), depth);
        }
    }
}

pub proof fn lemma_object_scan(s: Seq<u8>)
    ensures
        object_scan(s) matches Ok(n) ==> 2 <= n <= s.len() && s[n - 1] == RBRACE,
{
    if s.len() > 0 && s[0] == LBRACE {
        lemma_object_rest(s.skip(1), 1);
    }
}

pub proof fn lemma_primitive_scan(s: Seq<u8>)
    ensures
        primitive_scan(s) matches Ok(n) ==> 1 <= n <= s.len() && ends_beside_ascii(s, n),
{
    lemma_token_len(s);
}

/// A value scan stays inside `s`, takes at least one byte, and has an ASCII
/// byte beside its end; a string keeps its closing quote last.
pub proof fn lemma_value_scan(s: Seq<u8>)
    ensures
        value_scan(s) matches Ok(n) ==> {
            &&& 1 <= n <= s.len()
            &&& ends_beside_ascii(s, n)
            &&& s[0] == QUOTE ==> n >= 2 && s[n - 1] == QUOTE
        },
{
    lemma_string_scan(s);
    lemma_array_scan(s);
    lemma_object_scan(s);
    lemma_primitive_scan(s);
    lemma_token_len(s);
}

/// `s` and `u` hold the same first `m` bytes.
pub open spec fn same_prefix(s: Seq<u8>, u: Seq<u8>, m: int) -> bool {
    &&& 0 <= m <= s.len()
    &&& m <= u.len()
    &&& forall|i: int| 0 <= i < m ==> #[trigger] s[i] == u[i]
}

proof fn lemma_same_prefix_skip(s: Seq<u8>, u: Seq<u8>, m: int, k: int)
    requires
        same_prefix(s, u, m),
        0 <= k <= m,
    ensures
        same_prefix(s.skip(k), u.skip(k), m - k),
{
    assert forall|i: int| 0 <= i < m - k implies #[trigger] s.skip(k)[i] == u.skip(k)[i] by {
        assert(s[i + k] == u[i + k]);
    }
}

proof fn lemma_string_body_end_prefix(s: Seq<u8>, u: Seq<u8>, m: int)
    requires
        string_body_end(s) matches Some(q) && q < m,
        same_prefix(s, u, m),
    ensures
        string_body_end(u) == string_body_end(s),
    decreases s.len(),
{
    lemma_string_body_end(s);
    assert(s[0] == u[0]);
    if s[0] != QUOTE {
        if s[0] == BACKSLASH {
            lemma_string_body_end(s.skip(2));
        } else {
            lemma_string_body_end(s.skip(1));
        }
        let k: int = if s[0] == BACKSLASH {
            2
        } else {
            1
        };
        lemma_same_prefix_skip(s, u, m, k);
        lemma_string_body_end_prefix(s.skip(k), u.skip(k), m - k);
    }
}

pub(crate) proof fn lemma_string_scan_prefix(s: Seq<u8>, u: Seq<u8>, m: int)
    requires
        string_scan(s) matches Ok(n) && n <= m,
        same_prefix(s, u, m),
    ensures
        string_scan(u) == string_scan(s),
{
    lemma_string_scan(s);
    assert(s[0] == u[0]);
    lemma_same_prefix_skip(s, u, m, 1);
    lemma_string_body_end_prefix(s.skip(1), u.skip(1), m - 1);
}

proof fn lemma_array_rest_prefix(s: Seq<u8>, u: Seq<u8>, depth: nat, m: int)
    requires
        array_rest(s, depth) matches Ok(n) && n <= m,
        same_prefix(s, u, m),
    ensures
        array_rest(u, depth) == array_rest(s, depth),
    decreases s.len(),
{
    if depth > 0 {
        lemma_array_rest(s, depth);
        assert(s[0] == u[0]);
        if s[0] == QUOTE {
            lemma_string_scan(s);
            let k = string_scan(s).unwrap();
            lemma_array_rest(s.skip(k), depth);
            lemma_string_scan_prefix(s, u, m);
            lemma_same_prefix_skip(s, u, m, k);
            lemma_array_rest_prefix(s.skip(k), u.skip(k), depth, m - k);
        } else {
            let d: nat = if s[0] == LBRACKET {
                depth + 1
            } else if s[0] == RBRACKET {
                (depth - 1) as nat
            } else {
                depth
            };
            lemma_array_rest(s.skip(1), d);
            lemma_same_prefix_skip(s, u, m, 1);
            lemma_array_rest_prefix(s.skip(1), u.skip(1), d, m - 1);
        }
    }
}

pub(crate) proof fn lemma_array_scan_prefix(s: Seq<u8>, u: Seq<u8>, m: int)
    requires
        array_scan(s) matches Ok(n) && n <= m,
        same_prefix(s, u, m),
    ensures
        array_scan(u) == array_scan(s),
{
    lemma_array_scan(s);
    assert(s[0] == u[0]);
    lemma_same_prefix_skip(s, u, m, 1);
    lemma_array_rest_prefix(s.skip(1), u.skip(1), 1, m - 1);
}

proof fn lemma_object_rest_prefix(s: Seq<u8>, u: Seq<u8>, depth: nat, m: int)
    requires
        object_rest(s, depth) matches Ok(n) && n <= m,
        same_prefix(s, u, m),
    ensures
        object_rest(u, depth) == object_rest(s, depth),
    decreases s.len(),
{
    if depth > 0 {
        lemma_object_rest(s, depth);
        assert(s[0] == u[0]);
        if s[0] == QUOTE || s[0] == LBRACKET {
            lemma_string_scan(s);
            lemma_array_scan(s);
            let k = if s[0] == QUOTE {
                string_scan(s).unwrap()
            } else {
                array_scan(s).unwrap()
            };
            lemma_object_rest(s.skip(k), depth);
            if s[0] == QUOTE {
                lemma_string_scan_prefix(s, u, m);
            } else {
                lemma_array_scan_prefix(s, u, m);
            }
            lemma_same_prefix_skip(s, u, m, k);
            lemma_object_rest_prefix(s.skip(k), u.skip(k), depth, m - k);
        } else {
            let d: nat = if s[0] == LBRACE {
                depth + 1
            } else if s[0] == RBRACE {
                (depth - 1) as nat
            } else {
                depth
            };
            lemma_object_rest(s.skip(1), d);
            lemma_same_prefix_skip(s, u, m, 1);
            lemma_object_rest_prefix(s.skip(1), u.skip(1), d, m - 1);
        }
    }
}

pub(crate) proof fn lemma_object_scan_prefix(s: Seq<u8>, u: Seq<u8>, m: int)
    requires
        object_scan(s) matches Ok(n) && n <= m,
        same_prefix(s, u, m),
    ensures
        object_scan(u) == object_scan(s),
{
    lemma_object_scan(s);
    assert(s[0] == u[0]);
    lemma_same_prefix_skip(s, u, m, 1);
    lemma_object_rest_prefix(s.skip(1), u.skip(1), 1, m - 1);
}

/// A string, array or object scan reads nothing past the token it measures:
/// what follows the token does not change the result.
pub proof fn scans_read_only_the_token(b: Seq<u8>, t: Seq<u8>)
    ensures
        string_scan(b) matches Ok(n) ==> string_scan(b.take(n) + t) == Ok::<int, Kind>(n),
        array_scan(b) matches Ok(n) ==> array_scan(b.take(n) + t) == Ok::<int, Kind>(n),
        object_scan(b) matches Ok(n) ==> {
            &&& 2 <= n <= b.len()
            &&& b[0] == LBRACE
            &&& b[n - 1] == RBRACE
            &&& object_scan(b.take(n) + t) == Ok::<int, Kind>(n)
        },
{
    lemma_string_scan(b);
    lemma_array_scan(b);
    lemma_object_scan(b);
    if let Ok(n) = string_scan(b) {
        assert(same_prefix(b, b.take(n) + t, n));
        lemma_string_scan_prefix(b, b.take(n) + t, n);
    }
    if let Ok(n) = array_scan(b) {
        assert(same_prefix(b, b.take(n) + t, n));
        lemma_array_scan_prefix(b, b.take(n) + t, n);
    }
    if let Ok(n) = object_scan(b) {
        assert(same_prefix(b, b.take(n) + t, n));
        lemma_object_scan_prefix(b, b.take(n) + t, n);
    }
}

/// The body of a JSON string literal, between its quotes: bytes other than
/// `"` (0x22) and `\\` (0x5c), and escape pairs of a backslash and any one byte.
pub open spec fn is_string_body(body: Seq<u8>) -> bool
    decreases body.len(),
{
    if body.len() == 0 {
        true
    } else if body[0] == 0x5cu8 {
        body.len() >= 2 && is_string_body(body.skip(2))
    } else {
        body[0] != 0x22u8 && is_string_body(body.skip(1))
    }
}

proof fn lemma_body_end_of_literal(body: Seq<u8>, rest: Seq<u8>)
    requires
        is_string_body(body),
    ensures
        string_body_end(body + seq![0x22u8] + rest) == Some(body.len() as int),
    decreases body.len(),
{
    let s = body + seq![0x22u8] + rest;
    if body.len() == 0 {
        assert(s[0] == 0x22u8);
    } else {
        assert(s[0] == body[0]);
        let k: int = if body[0] == 0x5cu8 {
            2
        } else {
            1
        };
        assert(s.skip(k) =~= body.skip(k) + seq![0x22u8] + rest);
        lemma_body_end_of_literal(body.skip(k), rest);
    }
}

/// A string literal is measured from its opening quote through its closing
/// quote, whatever follows it: an escape pair never ends it, and the first
/// unescaped quote always does.
pub proof fn string_scan_measures_a_literal(body: Seq<u8>, rest: Seq<u8>)
    requires
        is_string_body(body),
    ensures
        string_scan(seq![0x22u8] + body + seq![0x22u8] + rest) == Ok::<int, Kind>(body.len() + 2int),
{
    let s = seq![0x22u8] + body + seq![0x22u8] + rest;
    assert(s[0] == 0x22u8);
    assert(s.skip(1) =~= body + seq![0x22u8] + rest);
    lemma_body_end_of_literal(body, rest);
}

/// The whitespace the scanners pass over is exactly the ASCII whitespace
/// bytes: space, tab, line feed, form feed and carriage return.
pub proof fn whitespace_is_the_ascii_five(s: Seq<u8>)
    ensures
        0 <= ws_len(s) <= s.len(),
        forall|j: int|
            0 <= j < ws_len(s) ==> {
                let c = #[trigger] s[j];
                c == 0x20 || c == 0x09 || c == 0x0a || c == 0x0c || c == 0x0d
            },
        ws_len(s) < s.len() ==> {
            let c = s[ws_len(s)];
            !(c == 0x20 || c == 0x09 || c == 0x0a || c == 0x0c || c == 0x0d)
        },
{
    lemma_ws_len(s);
}

/// A bare value runs up to the first `,`, `]`, `}` or JSON whitespace byte
/// (space, tab, line feed, carriage return), or to the end.
pub proof fn bare_value_stops_at_delimiters(s: Seq<u8>)
    ensures
        0 <= token_len(s) <= s.len(),
        forall|j: int|
            0 <= j < token_len(s) ==> {
                let c = #[trigger] s[j];
                !(c == 0x2c || c == 0x5d || c == 0x7d || c == 0x20 || c == 0x09 || c == 0x0a
                    || c == 0x0d)
            },
        token_len(s) < s.len() ==> {
            let c = s[token_len(s)];
            c == 0x2c || c == 0x5d || c == 0x7d || c == 0x20 || c == 0x09 || c == 0x0a || c
                == 0x0d
        },
{
    lemma_token_len(s);
}

// ---------------------------------------------------------------------------
// The scanners.

/// The index of the first `"` in `bytes`.
pub fn next_quote(bytes: &[u8]) -> (r: Option<usize>)
    ensures
        match r {
            Some(i) => i < bytes@.len() && bytes@[i as int] == QUOTE && forall|j: int|
                0 <= j < i ==> bytes@[j] != QUOTE,
            None => forall|j: int| 0 <= j < bytes@.len() ==> bytes@[j] != QUOTE,
        },
        r matches Some(i) ==> index_of(bytes@, QUOTE) == Some(i as int),
        r is None ==> index_of(bytes@, QUOTE) is None,
{
    proof {
        lemma_index_of(bytes@, QUOTE);
    }
    let mut i: usize = 0;
    while i < bytes.len()
        invariant
            i <= bytes@.len(),
            forall|j: int| 0 <= j < i ==> bytes@[j] != QUOTE,
            index_of(bytes@, QUOTE) matches Some(k) ==> k >= i,
        decreases bytes@.len() - i,
    {
        if bytes[i] == QUOTE {
            proof {
                lemma_index_of(bytes@, QUOTE);
            if let Some(k) = index_of(bytes@, QUOTE) {
                    if k < i {
                        assert(bytes@[k] != QUOTE);
                    }
                }
            }
            return Some(i);
        }
        proof {
            lemma_index_of(bytes@, QUOTE);
        }
        i = i + 1;
    }
    None
}

/// Measures the object at the start of `bytes`: the number of bytes up to and
/// including its closing `}`.
pub fn scan_object(bytes: &[u8]) -> (r: Result<usize, Error>)
    ensures
        agrees(r, object_scan(bytes@)),
{
    if bytes.len() == 0 || bytes[0] != LBRACE {
        return Err(Error::invalid_json());
    }
    let len = bytes.len();
    let mut pos: usize = 1;
    let mut depth: usize = 1;
    while pos < len && depth > 0
        invariant
            len == bytes@.len(),
            1 <= pos <= len,
            depth <= pos,
            object_scan(bytes@) == shift(object_rest(bytes@.skip(pos as int), depth as nat), pos as int),
        decreases len - pos,
    {
        let ghost s = bytes@.skip(pos as int);
        let b = bytes[pos];
        if b == QUOTE {
            match scan_string(&bytes[pos..len]) {
                Ok(n) => {
                    proof {
                        lemma_string_scan(s);
                        assert(s.skip(n as int) =~= bytes@.skip(pos + n));
                    }
                    pos = pos + n;
                },
                Err(e) => return Err(e),
            }
        } else if b == LBRACKET {
            match scan_array(&bytes[pos..len]) {
                Ok(n) => {
                    proof {
                        lemma_array_scan(s);
                        assert(s.skip(n as int) =~= bytes@.skip(pos + n));
                    }
                    pos = pos + n;
                },
                Err(e) => return Err(e),
            }
        } else if b == LBRACE {
            assert(s.skip(1) =~= bytes@.skip(pos + 1));
            depth = depth + 1;
            pos = pos + 1;
        } else if b == RBRACE {
            assert(s.skip(1) =~= bytes@.skip(pos + 1));
            depth = depth - 1;
            pos = pos + 1;
        } else {
            assert(s.skip(1) =~= bytes@.skip(pos + 1));
            pos = pos + 1;
        }
    }
    if depth == 0 {
        Ok(pos)
    } else {
        Err(Error::unmatched_bracket())
    }
}

/// Measures the array at the start of `bytes`: the number of bytes up to and
/// including its closing `]`.
pub fn scan_array(bytes: &[u8]) -> (r: Result<usize, Error>)
    ensures
        agrees(r, array_scan(bytes@)),
{
    if bytes.len() == 0 || bytes[0] != LBRACKET {
        return Err(Error::invalid_json());
    }
    let len = bytes.len();
    let mut pos: usize = 1;
    let mut depth: usize = 1;
    while pos < len && depth > 0
        invariant
            len == bytes@.len(),
            1 <= pos <= len,
            depth <= pos,
            array_scan(bytes@) == shift(array_rest(bytes@.skip(pos as int), depth as nat), pos as int),
        decreases len - pos,
    {
        let ghost s = bytes@.skip(pos as int);
        let b = bytes[pos];
        if b == QUOTE {
            match scan_string(&bytes[pos..len]) {
                Ok(n) => {
                    proof {
                        lemma_string_scan(s);
                        assert(s.skip(n as int) =~= bytes@.skip(pos + n));
                    }
                    pos = pos + n;
                },
                Err(e) => return Err(e),
            }
        } else if b == LBRACKET {
            assert(s.skip(1) =~= bytes@.skip(pos + 1));
            depth = depth + 1;
            pos = pos + 1;
        } else if b == RBRACKET {
            assert(s.skip(1) =~= bytes@.skip(pos + 1));
            depth = depth - 1;
            pos = pos + 1;
        } else {
            assert(s.skip(1) =~= bytes@.skip(pos + 1));
            pos = pos + 1;
        }
    }
    if depth == 0 {
        Ok(pos)
    } else {
        Err(Error::unmatched_bracket())
    }
}

/// Measures the string literal at the start of `bytes`, both quotes included.
pub fn scan_string(bytes: &[u8]) -> (r: Result<usize, Error>)
    ensures
        agrees(r, string_scan(bytes@)),
{
    if bytes.len() == 0 || bytes[0] != QUOTE {
        return Err(Error::invalid_json());
    }
    let len = bytes.len();
    let mut pos: usize = 1;
    assert(bytes@.skip(1) =~= bytes@.skip(1).skip(0));
    while pos < len
        invariant
            len == bytes@.len(),
            bytes@[0] == QUOTE,
            1 <= pos <= len,
            string_body_end(bytes@.skip(1)) == shift_opt(
                string_body_end(bytes@.skip(pos as int)),
                pos - 1,
            ),
        decreases len - pos,
    {
        let ghost s = bytes@.skip(pos as int);
        let b = bytes[pos];
        assert(s[0] == b);
        assert(s.len() == len - pos);
        if b == QUOTE {
            assert(string_body_end(s) == Some(0int));
            return Ok(pos + 1);
        } else if b == BACKSLASH {
            // the escaped byte is skipped; a string cut off there never closes
            if len - pos <= 2 {
                assert(string_body_end(s) is None);
                return Err(Error::unterminated_string());
            }
            assert(s.skip(2) =~= bytes@.skip(pos + 2));
            pos = pos + 2;
        } else {
            assert(s.skip(1) =~= bytes@.skip(pos + 1));
            pos = pos + 1;
        }
    }
    Err(Error::unterminated_string())
}

/// Measures the bare value (number, `true`, ...) at the start of `bytes`.
pub fn scan_primitive(bytes: &[u8]) -> (r: Result<usize, Error>)
    ensures
        agrees(r, primitive_scan(bytes@)),
{
    let len = bytes.len();
    let mut pos: usize = 0;
    assert(bytes@.skip(0) =~= bytes@);
    while pos < len && !delimiter(bytes[pos]) && !json_ws(bytes[pos])
        invariant
            len == bytes@.len(),
            pos <= len,
            token_len(bytes@) == pos + token_len(bytes@.skip(pos as int)),
        decreases len - pos,
    {
        assert(bytes@.skip(pos as int).skip(1) =~= bytes@.skip(pos + 1));
        pos = pos + 1;
    }
    if pos < len && json_ws(bytes[pos]) {
        let count = skip_whitespace_count(&bytes[pos..len]);
        proof {
            lemma_ws_len(bytes@.skip(pos as int));
        }
        let after = pos + count;
        if after < len && !delimiter(bytes[after]) {
            return Err(Error::invalid_json());
        }
    }
    if pos == 0 {
        Err(Error::invalid_json())
    } else {
        Ok(pos)
    }
}

/// The number of ASCII whitespace bytes at the start of `bytes`; an error
/// when `bytes` holds nothing else.
pub fn skip_whitespace(bytes: &[u8]) -> (r: Result<usize, Error>)
    ensures
        agrees(r, whitespace_scan(bytes@)),
{
    let mut pos: usize = 0;
    assert(bytes@.skip(0) =~= bytes@);
    while pos < bytes.len()
        invariant
            pos <= bytes@.len(),
            ws_len(bytes@) == pos + ws_len(bytes@.skip(pos as int)),
        decreases bytes@.len() - pos,
    {
        if ascii_ws(bytes[pos]) {
            assert(bytes@.skip(pos as int).skip(1) =~= bytes@.skip(pos + 1));
            pos = pos + 1;
        } else {
            return Ok(pos);
        }
    }
    Err(Error::invalid_json())
}

fn skip_whitespace_count(bytes: &[u8]) -> (r: usize)
    ensures
        r == ws_len(bytes@),
{
    let mut pos: usize = 0;
    assert(bytes@.skip(0) =~= bytes@);
    while pos < bytes.len() && ascii_ws(bytes[pos])
        invariant
            pos <= bytes@.len(),
            ws_len(bytes@) == pos + ws_len(bytes@.skip(pos as int)),
        decreases bytes@.len() - pos,
    {
        assert(bytes@.skip(pos as int).skip(1) =~= bytes@.skip(pos + 1));
        pos = pos + 1;
    }
    pos
}

} // verus!
