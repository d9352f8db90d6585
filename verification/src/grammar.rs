//! Well-formed JSON as a recognizer over bytes: the length of the value, the
//! member list or the element list a text starts with, when it is one.
//!
//! Strings are the string literals the scanner measures (a backslash hides the
//! byte after it); a number is a run of digits, signs, points and exponent
//! marks; between tokens only the four JSON whitespace bytes may stand.
use vstd::prelude::*;

use crate::chars::{
    is_ascii_ws, is_delimiter, is_json_ws, COLON, COMMA, LBRACE, LBRACKET, QUOTE, RBRACE, RBRACKET,
};
use crate::error::Kind;
use crate::scanner::{
    array_rest, array_scan, lemma_array_scan_prefix, lemma_object_scan_prefix,
    lemma_string_scan, lemma_string_scan_prefix, lemma_token_len, lemma_ws_len, object_rest,
    object_scan, primitive_scan, same_prefix, shift, string_scan, token_len, value_scan, ws_len,
};
use crate::span::{false_bytes, null_bytes, true_bytes};

verus! {

/// The number of JSON whitespace bytes `s` starts with.
pub open spec fn json_ws_len(s: Seq<u8>) -> nat
    decreases s.len(),
{
    if s.len() > 0 && is_json_ws(s[0]) {
        1 + json_ws_len(s.skip(1))
    } else {
        0
    }
}

/// The bytes a number's text is made of: digits, signs, the point and the
/// exponent marks.
pub open spec fn is_number_byte(c: u8) -> bool {
    (0x30 <= c <= 0x39) || c == 0x2d || c == 0x2b || c == 0x2e || c == 0x65 || c == 0x45
}

/// The number of number bytes `s` starts with.
pub open spec fn number_len(s: Seq<u8>) -> nat
    decreases s.len(),
{
    if s.len() > 0 && is_number_byte(s[0]) {
        1 + number_len(s.skip(1))
    } else {
        0
    }
}

/// `s` starts with the bytes `w`.
pub open spec fn starts_with(s: Seq<u8>, w: Seq<u8>) -> bool {
    w.len() <= s.len() && s.take(w.len() as int) == w
}

/// The length of the JSON value `s` starts with: a string, an object, an
/// array, `true`, `false`, `null` or a number.
pub open spec fn value_len(s: Seq<u8>) -> Option<nat>
    decreases s.len(), 0int,
{
    if s.len() == 0 {
        None
    } else if s[0] == QUOTE {
        match string_scan(s) {
            Ok(n) => Some(n as nat),
            Err(_) => None,
        }
    } else if s[0] == LBRACE || s[0] == LBRACKET {
        let w = json_ws_len(s.skip(1)) as int;
        let close = if s[0] == LBRACE {
            RBRACE
        } else {
            RBRACKET
        };
        if 1 + w >= s.len() {
            None
        } else if s[1 + w] == close {
            Some((w + 2) as nat)
        } else {
            let inner = if s[0] == LBRACE {
                members_len(s.skip(1 + w))
            } else {
                elements_len(s.skip(1 + w))
            };
            match inner {
                Some(m) => Some((1 + w + m) as nat),
                None => None,
            }
        }
    } else if starts_with(s, true_bytes()) || starts_with(s, null_bytes()) {
        Some(4)
    } else if starts_with(s, false_bytes()) {
        Some(5)
    } else if number_len(s) > 0 {
        Some(number_len(s))
    } else {
        None
    }
}

/// Where a value of `n` bytes at the start of `s` is followed by JSON
/// whitespace and then `,`, `}` or `]`: the position of that byte.
pub open spec fn after_value(s: Seq<u8>, n: int) -> int {
    n + json_ws_len(s.skip(n))
}

/// The members of an object after its `{` and the whitespace there: the
/// length up to and including the closing `}`.
pub open spec fn members_len(s: Seq<u8>) -> Option<nat>
    decreases s.len(), 1int,
{
    match string_scan(s) {
        Err(_) => None,
        Ok(n) => {
            proof {
                lemma_string_scan(s);
            }
            let colon = after_value(s, n);
            if !(colon < s.len() && s[colon] == COLON) {
                None
            } else {
                let c = colon + 1 + json_ws_len(s.skip(colon + 1));
                if c >= s.len() {
                    None
                } else {
                    match value_len(s.skip(c)) {
                        None => None,
                        Some(m) => {
                            let t = after_value(s, c + m);
                            if t < s.len() && s[t] == COMMA {
                                let k = t + 1 + json_ws_len(s.skip(t + 1));
                                if k >= s.len() {
                                    None
                                } else {
                                    match members_len(s.skip(k)) {
                                        Some(r) => Some((k + r) as nat),
                                        None => None,
                                    }
                                }
                            } else if t < s.len() && s[t] == RBRACE {
                                Some((t + 1) as nat)
                            } else {
                                None
                            }
                        },
                    }
                }
            }
        },
    }
}

/// The elements of an array after its `[` and the whitespace there: the
/// length up to and including the closing `]`.
pub open spec fn elements_len(s: Seq<u8>) -> Option<nat>
    decreases s.len(), 1int,
{
    match value_len(s) {
        None => None,
        Some(m) => {
            let t = after_value(s, m as int);
            if t < s.len() && s[t] == COMMA {
                let k = t + 1 + json_ws_len(s.skip(t + 1));
                if k >= s.len() {
                    None
                } else {
                    match elements_len(s.skip(k)) {
                        Some(r) => Some((k + r) as nat),
                        None => None,
                    }
                }
            } else if t < s.len() && s[t] == RBRACKET {
                Some((t + 1) as nat)
            } else {
                None
            }
        },
    }
}

/// A well-formed JSON text: JSON whitespace, one value, JSON whitespace.
pub open spec fn json_text(s: Seq<u8>) -> bool {
    let w = json_ws_len(s);
    &&& value_len(s.skip(w as int)) is Some
    &&& forall|i: int|
        w + value_len(s.skip(w as int))->0 <= i < s.len() ==> is_json_ws(#[trigger] s[i])
}

// ---------------------------------------------------------------------------

pub proof fn lemma_json_ws_len(s: Seq<u8>)
    ensures
        json_ws_len(s) <= s.len(),
        forall|j: int| 0 <= j < json_ws_len(s) ==> is_json_ws(#[trigger] s[j]),
        json_ws_len(s) < s.len() ==> !is_json_ws(s[json_ws_len(s) as int]),
    decreases s.len(),
{
    if s.len() > 0 && is_json_ws(s[0]) {
        lemma_json_ws_len(s.skip(1));
        assert forall|j: int| 1 <= j < s.len() implies s[j] == s.skip(1)[j - 1] by {}
    }
}

pub proof fn lemma_number_len(s: Seq<u8>)
    ensures
        number_len(s) <= s.len(),
        forall|j: int| 0 <= j < number_len(s) ==> is_number_byte(#[trigger] s[j]),
        number_len(s) < s.len() ==> !is_number_byte(s[number_len(s) as int]),
    decreases s.len(),
{
    if s.len() > 0 && is_number_byte(s[0]) {
        lemma_number_len(s.skip(1));
        assert forall|j: int| 1 <= j < s.len() implies s[j] == s.skip(1)[j - 1] by {}
    }
}

/// A byte the rest scanners pass over without a second look.
pub open spec fn is_plain(c: u8) -> bool {
    c != QUOTE && c != LBRACE && c != RBRACE && c != LBRACKET && c != RBRACKET
}

/// The rest scanners pass over plain bytes one at a time.
proof fn lemma_rest_plain(s: Seq<u8>, k: int, d: nat)
    requires
        0 <= k <= s.len(),
        d >= 1,
        forall|i: int| 0 <= i < k ==> is_plain(#[trigger] s[i]),
    ensures
        object_rest(s, d) == shift(object_rest(s.skip(k), d), k),
        array_rest(s, d) == shift(array_rest(s.skip(k), d), k),
    decreases k,
{
    if k == 0 {
        assert(s.skip(0) =~= s);
    } else {
        assert forall|i: int| 0 <= i < k - 1 implies is_plain(#[trigger] s.skip(1)[i]) by {
            assert(s.skip(1)[i] == s[i + 1]);
        }
        lemma_rest_plain(s.skip(1), k - 1, d);
        assert(s.skip(1).skip(k - 1) =~= s.skip(k));
    }
}


proof fn lemma_rest_ws_at(s: Seq<u8>, i: int, d: nat)
    requires
        0 <= i <= s.len(),
        d >= 1,
    ensures
        i + json_ws_len(s.skip(i)) <= s.len(),
        object_rest(s.skip(i), d) == shift(
            object_rest(s.skip(i + json_ws_len(s.skip(i))), d),
            json_ws_len(s.skip(i)) as int,
        ),
        array_rest(s.skip(i), d) == shift(
            array_rest(s.skip(i + json_ws_len(s.skip(i))), d),
            json_ws_len(s.skip(i)) as int,
        ),
{
    let x = s.skip(i);
    let w = json_ws_len(x) as int;
    lemma_json_ws_len(x);
    lemma_rest_plain(x, w, d);
    assert(x.skip(w) =~= s.skip(i + w));
}

proof fn lemma_rest_byte_at(s: Seq<u8>, i: int, d: nat)
    requires
        0 <= i < s.len(),
        d >= 1,
        is_plain(s[i]),
    ensures
        object_rest(s.skip(i), d) == shift(object_rest(s.skip(i + 1), d), 1),
        array_rest(s.skip(i), d) == shift(array_rest(s.skip(i + 1), d), 1),
{
    let x = s.skip(i);
    assert(x[0] == s[i]);
    assert(x.skip(1) =~= s.skip(i + 1));
}

/// A scan of the rest of an object or an array passes over a well-formed
/// value whole, at any depth; an object or array value is measured whole.
#[verifier::rlimit(60)]
proof fn lemma_rest_skips_value(s: Seq<u8>, d: nat)
    requires
        value_len(s) is Some,
        d >= 1,
    ensures
        value_len(s) matches Some(n) && {
            &&& 1 <= n <= s.len()
            &&& object_rest(s, d) == shift(object_rest(s.skip(n as int), d), n as int)
            &&& array_rest(s, d) == shift(array_rest(s.skip(n as int), d), n as int)
            &&& s[0] == LBRACE ==> object_scan(s) == Ok::<int, Kind>(n as int)
            &&& s[0] == LBRACKET ==> array_scan(s) == Ok::<int, Kind>(n as int)
        },
    decreases s.len(), 0int,
{
    let n = value_len(s)->0 as int;
    if s[0] == QUOTE {
        lemma_string_scan(s);
    } else if s[0] == LBRACE || s[0] == LBRACKET {
        let w = json_ws_len(s.skip(1)) as int;
        let x = s.skip(1);
        assert(x.skip(0) =~= x);
        lemma_rest_ws_at(x, 0, d);
        lemma_rest_ws_at(x, 0, d + 1);
        lemma_rest_ws_at(x, 0, 1);
        let y = s.skip(1 + w);
        assert(x.skip(w) =~= y);
        assert(y[0] == s[1 + w]);
        if (s[0] == LBRACE && s[1 + w] == RBRACE) || (s[0] == LBRACKET && s[1 + w] == RBRACKET) {
            assert(n == w + 2);
            assert(y.skip(1) =~= s.skip(n));
            assert(array_rest(y.skip(1), 0) == Ok::<int, Kind>(0));
            assert(object_rest(y.skip(1), 0) == Ok::<int, Kind>(0));
            if s[0] == LBRACE {
                assert(object_rest(y, d + 1) == shift(object_rest(y.skip(1), d), 1));
                assert(object_rest(y, 1) == shift(object_rest(y.skip(1), 0), 1));
            } else {
                assert(array_rest(y, d + 1) == shift(array_rest(y.skip(1), d), 1));
                assert(array_rest(y, 1) == shift(array_rest(y.skip(1), 0), 1));
            }
        } else if s[0] == LBRACE {
            let m = members_len(y)->0 as int;
            lemma_rest_skips_members(y, d);
            lemma_rest_skips_members(y, 0);
            assert(y.skip(m) =~= s.skip(n));
        } else {
            let m = elements_len(y)->0 as int;
            lemma_rest_skips_elements(y, d);
            lemma_rest_skips_elements(y, 0);
            assert(y.skip(m) =~= s.skip(n));
            assert(array_scan(s) == Ok::<int, Kind>(n));
        }
    } else {
        if starts_with(s, true_bytes()) || starts_with(s, null_bytes()) || starts_with(
            s,
            false_bytes(),
        ) {
            let lit = if starts_with(s, true_bytes()) {
                true_bytes()
            } else if starts_with(s, null_bytes()) {
                null_bytes()
            } else {
                false_bytes()
            };
            assert(lit.len() == n);
            assert forall|i: int| 0 <= i < n implies is_plain(#[trigger] s[i]) by {
                assert(s[i] == s.take(n)[i]);
            }
        } else {
            lemma_number_len(s);
        }
        lemma_rest_plain(s, n, d);
    }
}

/// The rest scans pass over a well-formed member list, and an object scan
/// leaves the object there.
#[verifier::rlimit(60)]
pub(crate) proof fn lemma_rest_skips_members(s: Seq<u8>, d: nat)
    requires
        members_len(s) is Some,
    ensures
        members_len(s) matches Some(total) && {
            &&& total <= s.len()
            &&& object_rest(s, d + 1) == shift(object_rest(s.skip(total as int), d), total as int)
            &&& d >= 1 ==> array_rest(s, d) == shift(
                array_rest(s.skip(total as int), d),
                total as int,
            )
        },
    decreases s.len(), 1int,
{
    let total = members_len(s)->0 as int;
    lemma_string_scan(s);
    let n = string_scan(s)->Ok_0;
    let colon = after_value(s, n);
    let c = colon + 1 + json_ws_len(s.skip(colon + 1));
    let v = s.skip(c);
    let m = value_len(v)->0 as int;
    let t = after_value(s, c + m);
    // one depth for the object scan, another for the array scan
    let dd: nat = if d >= 1 {
        d
    } else {
        1
    };
    assert(s.skip(0) =~= s);
    assert(s.skip(n) =~= s.skip(0).skip(n));
    lemma_rest_ws_at(s, n, d + 1);
    lemma_rest_ws_at(s, n, dd);
    lemma_rest_byte_at(s, colon, d + 1);
    lemma_rest_byte_at(s, colon, dd);
    lemma_rest_ws_at(s, colon + 1, d + 1);
    lemma_rest_ws_at(s, colon + 1, dd);
    lemma_rest_skips_value(v, d + 1);
    lemma_rest_skips_value(v, dd);
    assert(v.skip(m) =~= s.skip(c + m));
    lemma_rest_ws_at(s, c + m, d + 1);
    lemma_rest_ws_at(s, c + m, dd);
    assert(s.skip(t)[0] == s[t]);
    if s[t] == COMMA {
        lemma_rest_byte_at(s, t, d + 1);
        lemma_rest_byte_at(s, t, dd);
        lemma_rest_ws_at(s, t + 1, d + 1);
        lemma_rest_ws_at(s, t + 1, dd);
        let k = t + 1 + json_ws_len(s.skip(t + 1));
        let r = members_len(s.skip(k))->0 as int;
        lemma_rest_skips_members(s.skip(k), d);
        assert(s.skip(k).skip(r) =~= s.skip(total));
    } else {
        assert(s.skip(t).skip(1) =~= s.skip(total));
    }
}

/// The array rest scan passes over a well-formed element list.
proof fn lemma_rest_skips_elements(s: Seq<u8>, d: nat)
    requires
        elements_len(s) is Some,
    ensures
        elements_len(s) matches Some(total) && {
            &&& total <= s.len()
            &&& array_rest(s, d + 1) == shift(array_rest(s.skip(total as int), d), total as int)
        },
    decreases s.len(), 1int,
{
    let total = elements_len(s)->0 as int;
    let m = value_len(s)->0 as int;
    let t = after_value(s, m);
    lemma_rest_skips_value(s, d + 1);
    lemma_rest_ws_at(s, m, d + 1);
    assert(s.skip(t)[0] == s[t]);
    if s[t] == COMMA {
        lemma_rest_byte_at(s, t, d + 1);
        lemma_rest_ws_at(s, t + 1, d + 1);
        let k = t + 1 + json_ws_len(s.skip(t + 1));
        let r = elements_len(s.skip(k))->0 as int;
        lemma_rest_skips_elements(s.skip(k), d);
        assert(s.skip(k).skip(r) =~= s.skip(total));
    } else {
        assert(s.skip(t).skip(1) =~= s.skip(total));
    }
}

/// After a value of `n` bytes at the start of `s` come JSON whitespace and
/// then `,`, `]` or `}`.
pub open spec fn followed_by_delimiter(s: Seq<u8>, n: int) -> bool {
    after_value(s, n) < s.len() && is_delimiter(s[after_value(s, n)])
}

/// A value does not start with whitespace.
pub(crate) proof fn lemma_value_start(s: Seq<u8>)
    requires
        value_len(s) is Some,
    ensures
        value_len(s) matches Some(n) && 1 <= n <= s.len(),
        s.len() > 0,
        !is_ascii_ws(s[0]),
        !is_delimiter(s[0]),
{
    lemma_rest_skips_value(s, 1);
    if s[0] != QUOTE && s[0] != LBRACE && s[0] != LBRACKET {
        if starts_with(s, true_bytes()) || starts_with(s, null_bytes()) || starts_with(
            s,
            false_bytes(),
        ) {
            assert(s[0] == s.take(4)[0]);
        } else {
            lemma_number_len(s);
        }
    }
}

/// The bare value (literal or number) of `n` bytes at the start of `s`:
/// its bytes are neither delimiters nor whitespace.
pub(crate) proof fn lemma_bare_value(s: Seq<u8>)
    requires
        value_len(s) is Some,
        s[0] != QUOTE && s[0] != LBRACE && s[0] != LBRACKET,
    ensures
        value_len(s) matches Some(n) && forall|i: int|
            0 <= i < n ==> !is_delimiter(#[trigger] s[i]) && !is_ascii_ws(s[i]) && i < s.len(),
        s[0] == 0x74 ==> starts_with(s, true_bytes()) && value_len(s) == Some(4nat),
        s[0] == 0x66 ==> starts_with(s, false_bytes()) && value_len(s) == Some(5nat),
        s[0] == 0x6e ==> starts_with(s, null_bytes()) && value_len(s) == Some(4nat),
{
    let n = value_len(s)->0 as int;
    if starts_with(s, true_bytes()) || starts_with(s, null_bytes()) || starts_with(
        s,
        false_bytes(),
    ) {
        assert forall|i: int| 0 <= i < n implies !is_delimiter(#[trigger] s[i]) && !is_ascii_ws(
            s[i],
        ) && i < s.len() by {
            assert(s[i] == s.take(n)[i]);
        }
        assert(s[0] == s.take(4)[0]);
    } else {
        lemma_number_len(s);
    }
}

/// A value followed by whitespace and a delimiter is measured whole by the
/// value scan, in any text that holds the same bytes up to the delimiter.
pub proof fn lemma_value_scan_wf(s: Seq<u8>, u: Seq<u8>, m: int)
    requires
        value_len(s) matches Some(n) && followed_by_delimiter(s, n as int),
        same_prefix(s, u, m),
        value_len(s) matches Some(n) && after_value(s, n as int) < m,
    ensures
        value_len(s) matches Some(n) && value_scan(u) == Ok::<int, Kind>(n as int),
{
    let n = value_len(s)->0 as int;
    lemma_value_start(s);
    lemma_rest_skips_value(s, 1);
    assert(s[0] == u[0]);
    if s[0] == QUOTE {
        lemma_string_scan(s);
        lemma_string_scan_prefix(s, u, m);
    } else if s[0] == LBRACE {
        lemma_object_scan_prefix(s, u, m);
    } else if s[0] == LBRACKET {
        lemma_array_scan_prefix(s, u, m);
    } else {
        lemma_bare_value(s);
        let w = json_ws_len(s.skip(n)) as int;
        lemma_json_ws_len(s.skip(n));
        assert forall|i: int| 0 <= i < n implies !is_delimiter(#[trigger] u[i]) && !is_json_ws(
            u[i],
        ) by {
            assert(s[i] == u[i]);
        }
        assert(s.skip(n)[w] == s[n + w]);
        assert(u[n + w] == s[n + w]);
        assert(u[n] == s[n]);
        if w > 0 {
            assert(s.skip(n)[0] == s[n]);
        }
        lemma_token_len(u);
        let x = u.skip(n);
        lemma_ws_len(x);
        assert forall|i: int| 0 <= i < w implies is_json_ws(#[trigger] x[i]) by {
            assert(x[i] == u[n + i]);
            assert(s.skip(n)[i] == s[n + i]);
            assert(u[n + i] == s[n + i]);
        }
        assert(x[w] == u[n + w]);
        assert(token_len(u) == n);
        assert(ws_len(x) == w);
        assert(primitive_scan(u) == Ok::<int, Kind>(n));
        assert(value_scan(u) == Ok::<int, Kind>(n));
    }
}

} // verus!
