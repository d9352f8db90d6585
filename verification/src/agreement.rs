//! On well-formed JSON the cursor's walk and the search behind `find` agree:
//! searching on from a span `find` returned gives what `find` gives for the
//! longer path.
use vstd::prelude::*;

use crate::chars::{is_ascii_ws, is_json_ws, COLON, COMMA, DOT, LBRACE, LBRACKET, QUOTE, RBRACE};
use crate::cursor::{
    cursor_skips_agree_with_scanners, field_step, find_step, keys_step,
    lemma_string_step_agrees, members_step, string_step, value_step, ws_end, Step,
};
use crate::error::Kind;
use crate::find_spec;
use crate::grammar::{
    after_value, followed_by_delimiter, json_text, json_ws_len, lemma_bare_value,
    lemma_json_ws_len, lemma_rest_skips_members, lemma_value_scan_wf, lemma_value_start,
    members_len, value_len,
};
use crate::parser::{
    field_at_quote, lemma_path_search_concat, lemma_split_dot_concat, lemma_split_dot_nonempty,
    lemma_path_search_skip, members_search, path_search, segment_search, shift2, split_dot,
    value_after_colon,
};
use crate::scanner::{
    index_of, lemma_index_of, lemma_string_scan, lemma_string_scan_prefix, lemma_ws_len,
    same_prefix, string_scan, token_len, whitespace_scan, ws_len,
};
use crate::span::{false_bytes, null_bytes, true_bytes};

verus! {

/// No `"` in `b[from..to]`.
pub open spec fn quote_free(b: Seq<u8>, from: int, to: int) -> bool {
    forall|j: int| from <= j < to ==> #[trigger] b[j] != QUOTE
}

/// After the value that ends at `e`, past JSON whitespace, comes `,` or `}`.
pub open spec fn member_ends(b: Seq<u8>, e: int) -> bool {
    let t = ws_end(b, e);
    0 <= t < b.len() && (b[t] == COMMA || b[t] == RBRACE)
}

/// A search result for the text from `k` on agrees with a cursor step: on a
/// hit the cursor stands at the start of the value found, a well-formed
/// value of that length followed by `,` or `}`; otherwise both fail alike.
pub open spec fn search_agrees(
    b: Seq<u8>,
    r: Result<(int, int), Kind>,
    k: int,
    step: Step,
) -> bool {
    match r {
        Ok((a, z)) => {
            &&& step == (k + a, Ok::<(), Kind>(()))
            &&& 0 <= k + a < k + z <= b.len()
            &&& value_len(b.skip(k + a)) == Some((z - a) as nat)
            &&& member_ends(b, k + z)
        },
        Err(e) => step.1 == Err::<(), Kind>(e),
    }
}

pub proof fn lemma_ws_end_len(b: Seq<u8>, p: int)
    requires
        0 <= p <= b.len(),
    ensures
        ws_end(b, p) == p + json_ws_len(b.skip(p)),
    decreases b.len() - p,
{
    if p < b.len() {
        assert(b.skip(p)[0] == b[p]);
        if is_json_ws(b[p]) {
            assert(b.skip(p).skip(1) =~= b.skip(p + 1));
            lemma_ws_end_len(b, p + 1);
        }
    }
}

/// The first `x` of `b[from..to]` is the one at `i`.
proof fn lemma_first_at(b: Seq<u8>, from: int, i: int, to: int, x: u8)
    requires
        0 <= from <= i < to <= b.len(),
        b[i] == x,
        forall|j: int| from <= j < i ==> #[trigger] b[j] != x,
    ensures
        index_of(b.subrange(from, to), x) == Some(i - from),
{
    let u = b.subrange(from, to);
    lemma_index_of(u, x);
    assert(u[i - from] == b[i]);
    if let Some(k) = index_of(u, x) {
        assert(u[k] == b[from + k]);
    }
}

/// No `"` in `b[from..to]`: the search meets no field there.
proof fn lemma_no_field(b: Seq<u8>, from: int, to: int, key: Seq<u8>)
    requires
        0 <= from < to <= b.len(),
        quote_free(b, from, to),
    ensures
        members_search(b.subrange(from, to), key) == Err::<(int, int), Kind>(Kind::NotFound),
{
    let u = b.subrange(from, to);
    lemma_index_of(u, QUOTE);
    if let Some(k) = index_of(u, QUOTE) {
        assert(u[k] == b[from + k]);
    }
}

/// JSON whitespace at `i`, then a byte that is no ASCII whitespace.
proof fn lemma_whitespace_scan_at(b: Seq<u8>, i: int, to: int)
    requires
        0 <= i,
        i + json_ws_len(b.skip(i)) < to <= b.len(),
        !is_ascii_ws(b[i + json_ws_len(b.skip(i))]),
    ensures
        whitespace_scan(b.subrange(i, to)) == Ok::<int, Kind>(json_ws_len(b.skip(i)) as int),
{
    let u = b.subrange(i, to);
    let w = json_ws_len(b.skip(i)) as int;
    lemma_json_ws_len(b.skip(i));
    lemma_ws_len(u);
    assert forall|j: int| 0 <= j < w implies is_ascii_ws(#[trigger] u[j]) by {
        assert(u[j] == b.skip(i)[j]);
    }
    assert(u[w] == b[i + w]);
}

/// The cursor steps over a well-formed value followed by whitespace and a
/// delimiter exactly.
pub proof fn lemma_value_step_wf(b: Seq<u8>, p: int)
    requires
        0 <= p < b.len(),
        value_len(b.skip(p)) matches Some(n) && followed_by_delimiter(b.skip(p), n as int),
    ensures
        value_len(b.skip(p)) matches Some(n) && value_step(b, p) == (p + n, Ok::<(), Kind>(())),
{
    let s = b.skip(p);
    let n = value_len(s)->0 as int;
    assert(s[0] == b[p]);
    assert(same_prefix(s, s, s.len() as int));
    lemma_value_scan_wf(s, s, s.len() as int);
    if b[p] == QUOTE || b[p] == LBRACE || b[p] == LBRACKET {
        cursor_skips_agree_with_scanners(b, p);
    } else {
        lemma_bare_value(s);
        if b[p] == 0x74 || b[p] == 0x66 || b[p] == 0x6e {
            let w = if b[p] == 0x74 {
                true_bytes()
            } else if b[p] == 0x66 {
                false_bytes()
            } else {
                null_bytes()
            };
            assert(b.subrange(p, p + w.len()) =~= s.take(w.len() as int));
        } else {
            assert(token_len(s) == n);
        }
    }
}

/// Where a member list that starts after the JSON whitespace at `p` ends.
pub open spec fn members_end(b: Seq<u8>, p: int) -> int {
    let p1 = p + json_ws_len(b.skip(p));
    p1 + members_len(b.skip(p1))->0
}

/// The positions of the first member of the list after the JSON whitespace
/// at `p`: its name's opening quote, the end of the name, the colon, the
/// value's start and end, and the `,` or `}` after it.
pub open spec fn member_at(b: Seq<u8>, p: int) -> (int, int, int, int, int, int) {
    let p1 = p + json_ws_len(b.skip(p));
    let s = b.skip(p1);
    let n = string_scan(s)->Ok_0;
    let colon = after_value(s, n);
    let c = colon + 1 + json_ws_len(s.skip(colon + 1));
    let mv = value_len(s.skip(c))->0 as int;
    let t = after_value(s, c + mv);
    (p1, p1 + n, p1 + colon, p1 + c, p1 + c + mv, p1 + t)
}

/// The grammar of one member, read at the positions `member_at` gives.
#[verifier::rlimit(40)]
pub proof fn lemma_member_grammar(b: Seq<u8>, p: int)
    requires
        0 <= p <= b.len(),
        members_len(b.skip(p + json_ws_len(b.skip(p)))) is Some,
    ensures
        ({
            let (p1, p2, c0, cc, ve, tt) = member_at(b, p);
            &&& p <= p1 < p2 <= c0 < cc < ve <= tt < members_end(b, p) <= b.len()
            &&& forall|j: int| p <= j < p1 ==> is_json_ws(#[trigger] b[j])
            &&& b[p1] == QUOTE
            &&& string_scan(b.skip(p1)) == Ok::<int, Kind>(p2 - p1)
            &&& json_ws_len(b.skip(p2)) == c0 - p2
            &&& forall|j: int| p2 <= j < c0 ==> is_json_ws(#[trigger] b[j])
            &&& b[c0] == COLON
            &&& json_ws_len(b.skip(c0 + 1)) == cc - c0 - 1
            &&& forall|j: int| c0 < j < cc ==> is_json_ws(#[trigger] b[j])
            &&& value_len(b.skip(cc)) == Some((ve - cc) as nat)
            &&& followed_by_delimiter(b.skip(cc), ve - cc)
            &&& json_ws_len(b.skip(ve)) == tt - ve
            &&& forall|j: int| ve <= j < tt ==> is_json_ws(#[trigger] b[j])
            &&& b[tt] == COMMA || b[tt] == RBRACE
            &&& b[tt] == RBRACE ==> tt + 1 == members_end(b, p)
            &&& b[tt] == COMMA ==> {
                &&& members_len(b.skip(tt + 1 + json_ws_len(b.skip(tt + 1)))) is Some
                &&& members_end(b, tt + 1) == members_end(b, p)
            }
        }),
{
    lemma_json_ws_len(b.skip(p));
    let p1 = p + json_ws_len(b.skip(p)) as int;
    let s = b.skip(p1);
    lemma_string_scan(s);
    let n = string_scan(s)->Ok_0;
    let colon = after_value(s, n);
    let c = colon + 1 + json_ws_len(s.skip(colon + 1));
    let v = s.skip(c);
    let mv = value_len(v)->0 as int;
    let t = after_value(s, c + mv);
    let (_, p2, c0, cc, ve, tt) = member_at(b, p);
    lemma_value_start(v);
    lemma_rest_skips_members(s, 0);
    assert forall|j: int| p <= j < p1 implies is_json_ws(#[trigger] b[j]) by {
        assert(b[j] == b.skip(p)[j - p]);
    }
    assert(s.skip(n) =~= b.skip(p2));
    assert(s.skip(colon + 1) =~= b.skip(c0 + 1));
    assert(v =~= b.skip(cc));
    assert(s.skip(c + mv) =~= b.skip(ve));
    assert(v.skip(mv) =~= s.skip(c + mv));
    lemma_json_ws_len(b.skip(p2));
    lemma_json_ws_len(b.skip(c0 + 1));
    lemma_json_ws_len(b.skip(ve));
    assert forall|j: int| p2 <= j < c0 implies is_json_ws(#[trigger] b[j]) by {
        assert(b[j] == b.skip(p2)[j - p2]);
    }
    assert forall|j: int| c0 < j < cc implies is_json_ws(#[trigger] b[j]) by {
        assert(b[j] == b.skip(c0 + 1)[j - c0 - 1]);
    }
    assert forall|j: int| ve <= j < tt implies is_json_ws(#[trigger] b[j]) by {
        assert(b[j] == b.skip(ve)[j - ve]);
    }
    assert(b[p1] == s[0]);
    assert(b[c0] == s[colon]);
    assert(b[tt] == s[t]);
    assert(v[mv + json_ws_len(v.skip(mv))] == s[t]);
    if s[t] == COMMA {
        let k = t + 1 + json_ws_len(s.skip(t + 1));
        assert(s.skip(t + 1) =~= b.skip(tt + 1));
        assert(s.skip(k) =~= b.skip(p1 + k));
    }
}

/// The cursor's steps over one member, at the positions `member_at` gives.
proof fn lemma_member_cursor(b: Seq<u8>, p: int)
    requires
        0 <= p <= b.len(),
        members_len(b.skip(p + json_ws_len(b.skip(p)))) is Some,
    ensures
        ({
            let (p1, p2, c0, cc, ve, tt) = member_at(b, p);
            &&& ws_end(b, p) == p1
            &&& string_step(b, p1 + 1) == (p2, Ok::<(), Kind>(()))
            &&& ws_end(b, p2) == c0
            &&& ws_end(b, c0 + 1) == cc
            &&& value_step(b, cc) == (ve, Ok::<(), Kind>(()))
            &&& ws_end(b, ve) == tt
        }),
{
    lemma_member_grammar(b, p);
    let (p1, p2, c0, cc, ve, tt) = member_at(b, p);
    lemma_ws_end_len(b, p);
    lemma_ws_end_len(b, p2);
    lemma_ws_end_len(b, c0 + 1);
    lemma_ws_end_len(b, ve);
    assert(b.skip(p1).skip(1) =~= b.skip(p1 + 1));
    lemma_string_step_agrees(b, p1 + 1);
    lemma_value_step_wf(b, cc);
}

/// The search's reading of one member's name, at the positions `member_at`
/// gives.
#[verifier::rlimit(40)]
proof fn lemma_member_name_search(b: Seq<u8>, from: int, p: int, key: Seq<u8>, to: int)
    requires
        0 <= from <= p <= b.len(),
        quote_free(b, from, p),
        members_len(b.skip(p + json_ws_len(b.skip(p)))) is Some,
        members_end(b, p) <= to <= b.len(),
    ensures
        ({
            let (p1, p2, c0, cc, ve, tt) = member_at(b, p);
            &&& from < p2 <= to
            &&& field_at_quote(b.subrange(from, to), key) == Ok::<(bool, int), Kind>(
                (b.subrange(p1 + 1, p2 - 1) == key, p2 - from),
            )
        }),
{
    lemma_member_grammar(b, p);
    let (p1, p2, c0, cc, ve, tt) = member_at(b, p);
    let x = b.subrange(from, to);
    assert forall|j: int| from <= j < p1 implies #[trigger] b[j] != QUOTE by {
        if j >= p {
            assert(is_json_ws(b[j]));
        }
    }
    lemma_first_at(b, from, p1, to, QUOTE);
    let u1 = b.subrange(p1, to);
    assert(x.skip(p1 - from) =~= u1);
    assert(same_prefix(b.skip(p1), u1, to - p1));
    lemma_string_scan_prefix(b.skip(p1), u1, to - p1);
    lemma_string_scan(b.skip(p1));
    assert(x.subrange(p1 - from + 1, p1 - from + (p2 - p1) - 1) =~= b.subrange(p1 + 1, p2 - 1));
}

/// The search's reading of one member's value, at the positions `member_at`
/// gives.
#[verifier::rlimit(40)]
proof fn lemma_member_value_search(b: Seq<u8>, p: int, to: int)
    requires
        0 <= p <= b.len(),
        members_len(b.skip(p + json_ws_len(b.skip(p)))) is Some,
        members_end(b, p) <= to <= b.len(),
    ensures
        ({
            let (p1, p2, c0, cc, ve, tt) = member_at(b, p);
            &&& p2 <= cc < ve <= to
            &&& value_after_colon(b.subrange(p2, to)) == Ok::<(int, int), Kind>((cc - p2, ve - cc))
        }),
{
    lemma_member_grammar(b, p);
    let (p1, p2, c0, cc, ve, tt) = member_at(b, p);
    let y = b.subrange(p2, to);
    assert forall|j: int| p2 <= j < c0 implies #[trigger] b[j] != COLON by {
        assert(is_json_ws(b[j]));
    }
    lemma_first_at(b, p2, c0, to, COLON);
    assert(y.skip(c0 - p2 + 1) =~= b.subrange(c0 + 1, to));
    lemma_value_start(b.skip(cc));
    assert(b.skip(cc)[0] == b[cc]);
    lemma_whitespace_scan_at(b, c0 + 1, to);
    let u2 = b.subrange(cc, to);
    assert(y.skip(cc - p2) =~= u2);
    assert(same_prefix(b.skip(cc), u2, to - cc));
    assert(b.skip(cc).skip(ve - cc) =~= b.skip(ve));
    lemma_value_scan_wf(b.skip(cc), u2, to - cc);
}

/// One member in the cursor's walk: the value of `key`, or on to the next
/// member, or the end of the object.
proof fn lemma_members_step_once(b: Seq<u8>, p: int, key: Seq<u8>)
    requires
        0 <= p <= b.len(),
        members_len(b.skip(p + json_ws_len(b.skip(p)))) is Some,
    ensures
        ({
            let (p1, p2, c0, cc, ve, tt) = member_at(b, p);
            members_step(b, p, key) == if b.subrange(p1 + 1, p2 - 1) == key {
                (cc, Ok::<(), Kind>(()))
            } else if b[tt] == COMMA {
                members_step(b, tt + 1, key)
            } else {
                (tt, Err::<(), Kind>(Kind::NotFound))
            }
        }),
{
    lemma_member_grammar(b, p);
    lemma_member_cursor(b, p);
}

/// One member in the search: the value of `key`, or on from the end of the
/// value.
proof fn lemma_members_search_once(b: Seq<u8>, from: int, p: int, key: Seq<u8>, to: int)
    requires
        0 <= from <= p <= b.len(),
        quote_free(b, from, p),
        members_len(b.skip(p + json_ws_len(b.skip(p)))) is Some,
        members_end(b, p) <= to <= b.len(),
    ensures
        ({
            let (p1, p2, c0, cc, ve, tt) = member_at(b, p);
            members_search(b.subrange(from, to), key) == if b.subrange(p1 + 1, p2 - 1) == key {
                Ok::<(int, int), Kind>((cc - from, ve - from))
            } else {
                shift2(members_search(b.subrange(ve, to), key), ve - from)
            }
        }),
{
    lemma_member_name_search(b, from, p, key, to);
    lemma_member_value_search(b, p, to);
    let (p1, p2, c0, cc, ve, tt) = member_at(b, p);
    let x = b.subrange(from, to);
    assert(x.skip(p2 - from) =~= b.subrange(p2, to));
    assert(x.skip(ve - from) =~= b.subrange(ve, to));
}

/// The cursor's walk through the members from `p` and the search through the
/// same members from `from` (which only passes bytes other than `"` before
/// `p`) agree, when the text up to `to` holds no `"` after the list.
proof fn lemma_members_agree(b: Seq<u8>, from: int, p: int, key: Seq<u8>, to: int)
    requires
        0 <= from <= p <= b.len(),
        quote_free(b, from, p),
        members_len(b.skip(p + json_ws_len(b.skip(p)))) is Some,
        members_end(b, p) <= to <= b.len(),
        quote_free(b, members_end(b, p), to),
    ensures
        search_agrees(b, members_search(b.subrange(from, to), key), from, members_step(b, p, key)),
    decreases to - from,
{
    lemma_member_grammar(b, p);
    lemma_member_cursor(b, p);
    lemma_members_step_once(b, p, key);
    lemma_members_search_once(b, from, p, key, to);
    let (p1, p2, c0, cc, ve, tt) = member_at(b, p);
    if b.subrange(p1 + 1, p2 - 1) != key {
        if b[tt] == COMMA {
            assert forall|j: int| ve <= j < tt + 1 implies #[trigger] b[j] != QUOTE by {
                if j < tt {
                    assert(is_json_ws(b[j]));
                }
            }
            lemma_members_agree(b, ve, tt + 1, key, to);
        } else {
            assert forall|j: int| ve <= j < to implies #[trigger] b[j] != QUOTE by {
                if j < tt {
                    assert(is_json_ws(b[j]));
                }
            }
            lemma_no_field(b, ve, to, key);
        }
    }
}

/// At an object, the cursor's lookup of `key` and the search's agree.
#[verifier::rlimit(40)]
proof fn lemma_object_agrees(b: Seq<u8>, p: int, key: Seq<u8>, to: int)
    requires
        0 <= p < b.len(),
        b[p] == LBRACE,
        value_len(b.skip(p)) matches Some(n) && p + n <= to <= b.len(),
        quote_free(b, p + value_len(b.skip(p))->0, to),
    ensures
        search_agrees(b, segment_search(b.subrange(p, to), key), p, field_step(b, p, key)),
{
    let s = b.skip(p);
    let n = value_len(s)->0 as int;
    let w = json_ws_len(s.skip(1)) as int;
    let p1 = p + 1 + w;
    assert(s[0] == b[p]);
    assert(s.skip(1) =~= b.skip(p + 1));
    lemma_json_ws_len(b.skip(p + 1));
    lemma_ws_end_len(b, p + 1);
    assert(s[1 + w] == b[p1]);
    let x = b.subrange(p, to);
    assert(x[0] == b[p]);
    assert(x.skip(1) =~= b.subrange(p + 1, to));
    assert forall|j: int| p + 1 <= j < p1 implies #[trigger] b[j] != QUOTE by {
        assert(b[j] == b.skip(p + 1)[j - p - 1]);
    }
    if b[p1] == RBRACE {
        lemma_no_field(b, p + 1, to, key);
    } else {
        assert(s.skip(1 + w) =~= b.skip(p1));
        lemma_string_scan(b.skip(p1));
        assert(b.skip(p1)[0] == b[p1]);
        assert(json_ws_len(b.skip(p1)) == 0);
        assert(b.skip(p1).skip(0) =~= b.skip(p1));
        lemma_members_agree(b, p + 1, p1, key, to);
    }
}

/// Down a list of keys from a well-formed value at `p`, the cursor's walk and
/// the path search agree.
proof fn lemma_keys_agree(b: Seq<u8>, keys: Seq<Seq<u8>>, p: int, to: int)
    requires
        0 <= p < b.len(),
        value_len(b.skip(p)) matches Some(n) && p + n <= to <= b.len(),
        quote_free(b, p + value_len(b.skip(p))->0, to),
        keys.len() == 0 ==> to == p + value_len(b.skip(p))->0,
    ensures
        match path_search(b, keys, p, to) {
            Ok((s2, e2)) => {
                &&& keys_step(b, p, keys) == (s2, Ok::<(), Kind>(()))
                &&& 0 <= s2 < e2 <= b.len()
                &&& value_len(b.skip(s2)) == Some((e2 - s2) as nat)
                &&& keys.len() > 0 ==> member_ends(b, e2)
            },
            Err(k) => keys_step(b, p, keys).1 == Err::<(), Kind>(k),
        },
    decreases keys.len(),
{
    lemma_value_start(b.skip(p));
    if keys.len() > 0 {
        let x = b.subrange(p, to);
        assert(x[0] == b[p]);
        if b[p] == LBRACE {
            lemma_object_agrees(b, p, keys[0], to);
            if let Ok((a, z)) = segment_search(x, keys[0]) {
                lemma_keys_agree(b, keys.drop_first(), p + a, p + z);
            }
        }
    }
}

/// On a well-formed JSON text that is an object, `find` is the path search
/// from the object's `{`, and the object ends where only whitespace follows.
proof fn lemma_find_spec_object(data: Seq<u8>, pattern: Seq<u8>)
    requires
        json_text(data),
        data[json_ws_len(data) as int] == LBRACE,
    ensures
        json_ws_len(data) < data.len(),
        find_spec(pattern, data) == path_search(
            data,
            split_dot(pattern),
            json_ws_len(data) as int,
            data.len() as int,
        ),
        value_len(data.skip(json_ws_len(data) as int)) matches Some(n) && json_ws_len(data) + n
            <= data.len() && quote_free(data, (json_ws_len(data) + n) as int, data.len() as int),
{
    let w = json_ws_len(data) as int;
    let len = data.len() as int;
    lemma_json_ws_len(data);
    lemma_value_start(data.skip(w));
    lemma_ws_len(data);
    assert forall|j: int| 0 <= j < w implies is_ascii_ws(#[trigger] data[j]) by {}
    assert(ws_len(data) == w);
    assert(whitespace_scan(data) == Ok::<int, Kind>(w));
    lemma_path_search_skip(data, w, split_dot(pattern), 0, len - w);
}

/// From a well-formed value at `s` that ends at `e`, the cursor's search for
/// `q` gives the path search's answer inside `s..e`.
proof fn lemma_find_step_wf(b: Seq<u8>, s: int, e: int, q: Seq<u8>)
    requires
        0 <= s < e <= b.len(),
        value_len(b.skip(s)) == Some((e - s) as nat),
    ensures
        find_step(b, s, q).1 == path_search(b, split_dot(q), s, e),
{
    lemma_split_dot_nonempty(q);
    lemma_keys_agree(b, split_dot(q), s, e);
    if let Ok((s2, e2)) = path_search(b, split_dot(q), s, e) {
        assert(b.skip(s2).skip(e2 - s2) =~= b.skip(e2));
        lemma_ws_end_len(b, e2);
        assert(b.skip(s2)[ws_end(b, e2) - s2] == b[ws_end(b, e2)]);
        lemma_value_step_wf(b, s2);
    }
}

/// On a well-formed JSON text that is an object, looking up the dotted path
/// `q` from the span `find` gives for `p` (as `Span::find` does) gives what
/// `find` gives for `p.q`: the same span, or the same error.
pub proof fn span_find_agrees_with_find(data: Seq<u8>, p: Seq<u8>, q: Seq<u8>)
    requires
        json_text(data),
        data[json_ws_len(data) as int] == LBRACE,
        find_spec(p, data) is Ok,
    ensures
        find_step(data, find_spec(p, data)->Ok_0.0, q).1 == find_spec(p + seq![DOT] + q, data),
{
    let len = data.len() as int;
    let w = json_ws_len(data) as int;
    lemma_find_spec_object(data, p);
    lemma_find_spec_object(data, p + seq![DOT] + q);
    lemma_split_dot_nonempty(p);
    lemma_keys_agree(data, split_dot(p), w, len);
    let (s, e) = find_spec(p, data)->Ok_0;
    lemma_split_dot_concat(p, q);
    lemma_path_search_concat(data, split_dot(p), split_dot(q), w, len);
    lemma_find_step_wf(data, s, e, q);
}

/// By the grammar, the value of the first member named `key` in the member
/// list after the JSON whitespace at `p`: where it starts and ends.
#[verifier::opaque]
pub open spec fn member_lookup(b: Seq<u8>, p: int, key: Seq<u8>) -> Option<(int, int)>
    decreases b.len() - p,
{
    if !(0 <= p <= b.len() && members_len(b.skip(p + json_ws_len(b.skip(p)))) is Some) {
        None
    } else {
        let (p1, p2, c0, cc, ve, tt) = member_at(b, p);
        if b.subrange(p1 + 1, p2 - 1) == key {
            Some((cc, ve))
        } else if b[tt] == COMMA {
            proof {
                lemma_member_grammar(b, p);
            }
            member_lookup(b, tt + 1, key)
        } else {
            None
        }
    }
}

/// By the grammar, the value of the first member named `key` of the object
/// whose `{` is at `p`.
pub open spec fn object_lookup(b: Seq<u8>, p: int, key: Seq<u8>) -> Option<(int, int)> {
    let p1 = p + 1 + json_ws_len(b.skip(p + 1));
    if 0 <= p1 < b.len() && b[p1] == RBRACE {
        None
    } else {
        member_lookup(b, p1, key)
    }
}

/// What a lookup answers, as a span from the text's start or not-found.
pub open spec fn lookup_result(r: Option<(int, int)>) -> Result<(int, int), Kind> {
    match r {
        Some((s, e)) => Ok((s, e)),
        None => Err(Kind::NotFound),
    }
}

/// Through a member list, the search finds what the grammar's lookup names.
proof fn lemma_members_lookup(b: Seq<u8>, from: int, p: int, key: Seq<u8>, to: int)
    requires
        0 <= from <= p <= b.len(),
        quote_free(b, from, p),
        members_len(b.skip(p + json_ws_len(b.skip(p)))) is Some,
        members_end(b, p) <= to <= b.len(),
        quote_free(b, members_end(b, p), to),
    ensures
        members_search(b.subrange(from, to), key) == shift2(
            lookup_result(member_lookup(b, p, key)),
            -from,
        ),
    decreases to - from,
{
    reveal(member_lookup);
    lemma_member_grammar(b, p);
    lemma_members_search_once(b, from, p, key, to);
    let (p1, p2, c0, cc, ve, tt) = member_at(b, p);
    if b.subrange(p1 + 1, p2 - 1) != key {
        if b[tt] == COMMA {
            assert forall|j: int| ve <= j < tt + 1 implies #[trigger] b[j] != QUOTE by {
                if j < tt {
                    assert(is_json_ws(b[j]));
                }
            }
            lemma_members_lookup(b, ve, tt + 1, key, to);
        } else {
            assert forall|j: int| ve <= j < to implies #[trigger] b[j] != QUOTE by {
                if j < tt {
                    assert(is_json_ws(b[j]));
                }
            }
            lemma_no_field(b, ve, to, key);
        }
    }
}

/// In an object, the search finds what the grammar's lookup names.
#[verifier::rlimit(40)]
proof fn lemma_object_lookup(b: Seq<u8>, p: int, key: Seq<u8>, to: int)
    requires
        0 <= p < b.len(),
        b[p] == LBRACE,
        value_len(b.skip(p)) matches Some(n) && p + n <= to <= b.len(),
        quote_free(b, p + value_len(b.skip(p))->0, to),
    ensures
        segment_search(b.subrange(p, to), key) == shift2(
            lookup_result(object_lookup(b, p, key)),
            -p,
        ),
{
    let s = b.skip(p);
    let w = json_ws_len(s.skip(1)) as int;
    let p1 = p + 1 + w;
    assert(s[0] == b[p]);
    assert(s.skip(1) =~= b.skip(p + 1));
    lemma_json_ws_len(b.skip(p + 1));
    assert(s[1 + w] == b[p1]);
    let x = b.subrange(p, to);
    assert(x[0] == b[p]);
    assert(x.skip(1) =~= b.subrange(p + 1, to));
    assert forall|j: int| p + 1 <= j < p1 implies #[trigger] b[j] != QUOTE by {
        assert(b[j] == b.skip(p + 1)[j - p - 1]);
    }
    if b[p1] == RBRACE {
        lemma_no_field(b, p + 1, to, key);
    } else {
        assert(s.skip(1 + w) =~= b.skip(p1));
        lemma_string_scan(b.skip(p1));
        assert(b.skip(p1)[0] == b[p1]);
        assert(json_ws_len(b.skip(p1)) == 0);
        assert(b.skip(p1).skip(0) =~= b.skip(p1));
        lemma_members_lookup(b, p + 1, p1, key, to);
    }
}

/// On a well-formed JSON text that is an object, `find` with a key that holds
/// no dot gives the value of the object's first member of that name, and
/// not-found when it has none.
pub proof fn find_gives_first_member(data: Seq<u8>, key: Seq<u8>)
    requires
        json_text(data),
        data[json_ws_len(data) as int] == LBRACE,
        index_of(key, DOT) is None,
    ensures
        find_spec(key, data) == lookup_result(object_lookup(data, json_ws_len(data) as int, key)),
{
    let len = data.len() as int;
    let w = json_ws_len(data) as int;
    lemma_find_spec_object(data, key);
    lemma_index_of(key, DOT);
    assert(split_dot(key) == seq![key]);
    lemma_object_lookup(data, w, key, len);
    assert(path_search(data, seq![key], w, len) == shift2(segment_search(data.subrange(w, len), key), w)) by {
        reveal_with_fuel(path_search, 2);
        assert(seq![key].drop_first() =~= Seq::<Seq<u8>>::empty());
    }
}

/// On a well-formed object at `p` inside any text, the cursor's search for a
/// key that holds no dot (as `Span::find` makes it) gives the value of the
/// object's first member of that name, and not-found when it has none.
pub proof fn cursor_finds_first_member(b: Seq<u8>, p: int, key: Seq<u8>)
    requires
        0 <= p < b.len(),
        b[p] == LBRACE,
        value_len(b.skip(p)) is Some,
        index_of(key, DOT) is None,
    ensures
        find_step(b, p, key).1 == lookup_result(object_lookup(b, p, key)),
{
    let e = p + value_len(b.skip(p))->0;
    lemma_value_start(b.skip(p));
    lemma_find_step_wf(b, p, e, key);
    lemma_index_of(key, DOT);
    assert(split_dot(key) == seq![key]);
    lemma_object_lookup(b, p, key, e);
    assert(path_search(b, seq![key], p, e) == shift2(segment_search(b.subrange(p, e), key), p)) by {
        reveal_with_fuel(path_search, 2);
        assert(seq![key].drop_first() =~= Seq::<Seq<u8>>::empty());
    }
}

} // verus!
