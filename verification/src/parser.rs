//! The search behind `find`: walks the path one segment at a time, each
//! segment inside the value the previous one found.
use vstd::prelude::*;
use vstd::string::StringSliceAdditionalSpecFns;

use crate::chars::{bytes_equal, COLON, DOT, LBRACE, LBRACKET, QUOTE};
use crate::error::{Error, Kind};
use crate::scanner::{
    index_of, lemma_index_of, lemma_string_scan, lemma_value_scan, lemma_ws_len, next_quote,
    scan_array, scan_object, scan_primitive, scan_string, shift_opt, skip_whitespace,
    string_scan, value_scan, whitespace_scan,
};
use crate::span::Span;

verus! {

/// `r`, with both offsets it carries moved by `k`.
pub open spec fn shift2(r: Result<(int, int), Kind>, k: int) -> Result<(int, int), Kind> {
    match r {
        Ok((a, b)) => Ok((a + k, b + k)),
        Err(e) => Err(e),
    }
}

/// An executable span result agrees with a spec result.
pub open spec fn span_agrees(r: Result<Span, Error>, s: Result<(int, int), Kind>) -> bool {
    match (r, s) {
        (Ok(span), Ok(p)) => span@ == p,
        (Err(e), Err(k)) => e@ == k,
        _ => false,
    }
}

/// The pieces of `p` between dots, as `str::split('.')` yields them.
pub open spec fn split_dot(p: Seq<u8>) -> Seq<Seq<u8>>
    decreases p.len(),
{
    match index_of(p, DOT) {
        Some(i) => {
            proof {
                lemma_index_of(p, DOT);
            }
            seq![p.take(i)] + split_dot(p.skip(i + 1))
        },
        None => seq![p],
    }
}

/// After the first `:` of `s`, past ASCII whitespace, the value there: its
/// start and its length.
pub open spec fn value_after_colon(s: Seq<u8>) -> Result<(int, int), Kind> {
    match index_of(s, COLON) {
        None => Err(Kind::InvalidJson),
        Some(c) => match whitespace_scan(s.skip(c + 1)) {
            Err(e) => Err(e),
            Ok(w) => match value_scan(s.skip(c + 1 + w)) {
                Err(e) => Err(e),
                Ok(n) => Ok((c + 1 + w, n)),
            },
        },
    }
}

/// From the first `"` of `s`, the field name there: whether it is `key`, and
/// where the name's closing quote ends.
pub open spec fn field_at_quote(s: Seq<u8>, key: Seq<u8>) -> Result<(bool, int), Kind> {
    match index_of(s, QUOTE) {
        None => Err(Kind::NotFound),
        Some(q) => match string_scan(s.skip(q)) {
            Err(e) => Err(e),
            Ok(n) => Ok((s.subrange(q + 1, q + n - 1) == key, q + n)),
        },
    }
}

/// Through the members of an object, from `s` onwards: the span of the value
/// of the first field named `key`.
pub open spec fn members_search(s: Seq<u8>, key: Seq<u8>) -> Result<(int, int), Kind>
    decreases s.len(),
{
    if s.len() == 0 {
        Err(Kind::NotFound)
    } else {
        match field_at_quote(s, key) {
            Err(e) => Err(e),
            Ok((is_match, fe)) => {
                proof {
                    lemma_field_at_quote(s, key);
                }
                match value_after_colon(s.skip(fe)) {
                    Err(e) => Err(e),
                    Ok((st, n)) => {
                        proof {
                            lemma_value_after_colon(s.skip(fe));
                        }
                        if is_match {
                            Ok((fe + st, fe + st + n))
                        } else {
                            shift2(members_search(s.skip(fe + st + n), key), fe + st + n)
                        }
                    },
                }
            },
        }
    }
}

/// The span of the value of field `key` in the object `b` starts with.
pub open spec fn object_search(b: Seq<u8>, key: Seq<u8>) -> Result<(int, int), Kind> {
    if b.len() == 0 {
        Err(Kind::NotFound)
    } else {
        shift2(members_search(b.skip(1), key), 1)
    }
}

/// One path step: `key` looked up in the value `b` holds.
pub open spec fn segment_search(b: Seq<u8>, key: Seq<u8>) -> Result<(int, int), Kind> {
    if b.len() == 0 {
        Err(Kind::InvalidJson)
    } else if b[0] == LBRACE {
        object_search(b, key)
    } else if b[0] == LBRACKET {
        Err(Kind::UnsupportedArray)
    } else {
        Err(Kind::NotFound)
    }
}

/// The keys `keys` looked up one after the other, starting inside `b[start..end]`.
pub open spec fn path_search(b: Seq<u8>, keys: Seq<Seq<u8>>, start: int, end: int) -> Result<
    (int, int),
    Kind,
>
    decreases keys.len(),
{
    if keys.len() == 0 {
        Ok((start, end))
    } else {
        match segment_search(b.subrange(start, end), keys[0]) {
            Err(e) => Err(e),
            Ok((s, e)) => path_search(b, keys.drop_first(), start + s, start + e),
        }
    }
}

/// The span of the value at the dotted path `pattern` in the JSON value `b`.
pub open spec fn path_find(b: Seq<u8>, pattern: Seq<u8>) -> Result<(int, int), Kind> {
    path_search(b, split_dot(pattern), 0, b.len() as int)
}

// ---------------------------------------------------------------------------

pub proof fn lemma_split_dot_nonempty(p: Seq<u8>)
    ensures
        split_dot(p).len() >= 1,
    decreases p.len(),
{
    lemma_index_of(p, DOT);
    if let Some(i) = index_of(p, DOT) {
        lemma_split_dot_nonempty(p.skip(i + 1));
    }
}

/// The end `e` of a value in `s` has an ASCII byte beside it, or is the end of `s`.
pub open spec fn end_ok(s: Seq<u8>, e: int) -> bool {
    e == s.len() || s[e - 1] < 0x80 || s[e] < 0x80
}

/// `s[a..e]` is a value as the search finds one: not empty, after an ASCII
/// byte, with an ASCII byte beside its end, and a string in it keeps its
/// closing quote last.
pub open spec fn found_ok(s: Seq<u8>, a: int, e: int) -> bool {
    &&& 1 <= a < e <= s.len()
    &&& s[a - 1] < 0x80
    &&& end_ok(s, e)
    &&& s[a] == QUOTE ==> e - a >= 2 && s[e - 1] == QUOTE
}

pub proof fn lemma_value_after_colon(s: Seq<u8>)
    ensures
        value_after_colon(s) matches Ok((st, n)) ==> found_ok(s, st, st + n),
{
    lemma_index_of(s, COLON);
    if let Some(c) = index_of(s, COLON) {
        let t = s.skip(c + 1);
        lemma_ws_len(t);
        if let Ok(w) = whitespace_scan(t) {
            let v = s.skip(c + 1 + w);
            lemma_value_scan(v);
            if let Ok(n) = value_scan(v) {
                if w > 0 {
                    assert(t[w - 1] == s[c + w]);
                }
                assert(v[0] == s[c + 1 + w]);
                assert(v[n - 1] == s[c + 1 + w + n - 1]);
                if n < v.len() {
                    assert(v[n] == s[c + 1 + w + n]);
                }
            }
        }
    }
}

pub proof fn lemma_field_at_quote(s: Seq<u8>, key: Seq<u8>)
    ensures
        field_at_quote(s, key) matches Ok((m, fe)) ==> 2 <= fe <= s.len(),
{
    lemma_index_of(s, QUOTE);
    if let Some(q) = index_of(s, QUOTE) {
        lemma_string_scan(s.skip(q));
    }
}


// ---------------------------------------------------------------------------
// The search.

/// Finds the value at the dotted path `pattern` in the JSON value `bytes` starts
/// with, one path segment at a time.
pub fn find_path(bytes: &[u8], pattern: &str) -> (r: Result<Span, Error>)
    ensures
        span_agrees(r, path_find(bytes@, pattern.spec_bytes())),
{
    let p = pattern.as_bytes();
    let ghost pb = p@;
    let mut abs_start: usize = 0;
    let mut abs_end: usize = bytes.len();
    let mut seg_start: usize = 0;
    assert(pb.skip(0) =~= pb);
    loop
        invariant
            pb == p@,
            pb == pattern.spec_bytes(),
            abs_start <= abs_end <= bytes@.len(),
            seg_start <= p@.len(),
            path_find(bytes@, pb) == path_search(
                bytes@,
                split_dot(pb.skip(seg_start as int)),
                abs_start as int,
                abs_end as int,
            ),
        decreases p@.len() - seg_start,
    {
        let ghost rest = pb.skip(seg_start as int);
        let seg_end = segment_end(p, seg_start);
        proof {
            lemma_index_of(rest, DOT);
            lemma_split_dot_nonempty(rest);
        }
        let segment = &p[seg_start..seg_end];
        let slice = &bytes[abs_start..abs_end];
        proof {
            assert(segment@ =~= rest.take(seg_end - seg_start));
            assert(split_dot(rest)[0] =~= segment@);
        }
        let section = match find_segment(slice, segment) {
            Ok(section) => section,
            Err(e) => {
                assert(path_search(bytes@, split_dot(rest), abs_start as int, abs_end as int)
                    == Err::<(int, int), Kind>(e@));
                return Err(e);
            },
        };
        proof {
            lemma_segment_search(slice@, segment@);
        }
        let old_start = abs_start;
        assert(path_search(bytes@, split_dot(rest), abs_start as int, abs_end as int)
            == path_search(
            bytes@,
            split_dot(rest).drop_first(),
            abs_start + section@.0,
            abs_start + section@.1,
        ));
        abs_start = abs_start + section.start();
        abs_end = old_start + section.end();
        if seg_end == p.len() {
            assert(split_dot(rest) =~= seq![rest]);
            assert(split_dot(rest).drop_first().len() == 0);
            return Ok(Span::new(abs_start, abs_end));
        }
        proof {
            assert(rest.skip(seg_end - seg_start + 1) =~= pb.skip(seg_end + 1));
            assert(split_dot(rest).drop_first() =~= split_dot(pb.skip(seg_end + 1)));
        }
        seg_start = seg_end + 1;
    }
}

/// Where the path segment that begins at `from` ends: the next dot, or the end.
pub(crate) fn segment_end(p: &[u8], from: usize) -> (r: usize)
    requires
        from <= p@.len(),
    ensures
        r == match index_of(p@.skip(from as int), DOT) {
            Some(i) => from + i,
            None => p@.len() as int,
        },
{
    let mut i: usize = from;
    assert(p@.skip(from as int) =~= p@.skip(from as int).skip(0));
    while i < p.len()
        invariant
            from <= i <= p@.len(),
            index_of(p@.skip(from as int), DOT) == shift_opt(
                index_of(p@.skip(i as int), DOT),
                i - from,
            ),
        decreases p@.len() - i,
    {
        if p[i] == DOT {
            return i;
        }
        assert(p@.skip(i as int).skip(1) =~= p@.skip(i + 1));
        i = i + 1;
    }
    i
}

fn find_segment(bytes: &[u8], segment: &[u8]) -> (r: Result<Span, Error>)
    ensures
        span_agrees(r, segment_search(bytes@, segment@)),
{
    if bytes.len() == 0 {
        return Err(Error::invalid_json());
    }
    if bytes[0] == LBRACE {
        search_object(bytes, segment)
    } else if bytes[0] == LBRACKET {
        Err(Error::unsupported_array())
    } else {
        Err(Error::not_found())
    }
}

fn search_object(bytes: &[u8], key: &[u8]) -> (r: Result<Span, Error>)
    ensures
        span_agrees(r, object_search(bytes@, key@)),
{
    let len = bytes.len();
    if len == 0 {
        return Err(Error::not_found());
    }
    let mut pos: usize = 1;
    while pos < len
        invariant
            len == bytes@.len(),
            1 <= pos <= len,
            object_search(bytes@, key@) == shift2(
                members_search(bytes@.skip(pos as int), key@),
                pos as int,
            ),
        decreases len - pos,
    {
        let ghost s = bytes@.skip(pos as int);
        let (is_match, field_end) = match match_field(&bytes[pos..len], key) {
            Ok(x) => x,
            Err(e) => return Err(e),
        };
        proof {
            lemma_field_at_quote(s, key@);
            assert(s.skip(field_end as int) =~= bytes@.skip(pos + field_end));
        }
        pos = pos + field_end;
        let (start, vlen) = match find_value(&bytes[pos..len]) {
            Ok(x) => x,
            Err(e) => return Err(e),
        };
        proof {
            lemma_value_after_colon(bytes@.skip(pos as int));
        }
        if is_match {
            return Ok(Span::new(pos + start, pos + start + vlen));
        } else {
            proof {
                assert(s.skip(field_end + start + vlen) =~= bytes@.skip(pos + start + vlen));
            }
            pos = pos + start + vlen;
        }
    }
    Err(Error::not_found())
}

fn find_value(bytes: &[u8]) -> (r: Result<(usize, usize), Error>)
    ensures
        match (r, value_after_colon(bytes@)) {
            (Ok((a, b)), Ok((c, d))) => a == c && b == d,
            (Err(e), Err(k)) => e@ == k,
            _ => false,
        },
{
    let len = bytes.len();
    let mut pos: usize = 0;
    assert(bytes@.skip(0) =~= bytes@);
    while pos < len
        invariant
            len == bytes@.len(),
            pos <= len,
            index_of(bytes@, COLON) == shift_opt(index_of(bytes@.skip(pos as int), COLON), pos as int),
        decreases len - pos,
    {
        if bytes[pos] == COLON {
            pos = pos + 1;
            let w = match skip_whitespace(&bytes[pos..len]) {
                Ok(w) => w,
                Err(e) => return Err(e),
            };
            proof {
                lemma_ws_len(bytes@.skip(pos as int));
                assert(bytes@.skip(pos as int).skip(w as int) =~= bytes@.skip(pos + w));
            }
            pos = pos + w;
            let start = pos;
            let rest = &bytes[pos..len];
            let scanned = if bytes[pos] == LBRACKET {
                scan_array(rest)
            } else if bytes[pos] == LBRACE {
                scan_object(rest)
            } else if bytes[pos] == QUOTE {
                scan_string(rest)
            } else {
                scan_primitive(rest)
            };
            return match scanned {
                Ok(n) => Ok((start, n)),
                Err(e) => Err(e),
            };
        }
        assert(bytes@.skip(pos as int).skip(1) =~= bytes@.skip(pos + 1));
        pos = pos + 1;
    }
    Err(Error::invalid_json())
}

fn match_field(bytes: &[u8], key: &[u8]) -> (r: Result<(bool, usize), Error>)
    ensures
        match (r, field_at_quote(bytes@, key@)) {
            (Ok((a, b)), Ok((c, d))) => a == c && b == d,
            (Err(e), Err(k)) => e@ == k,
            _ => false,
        },
{
    let quote_pos = match next_quote(bytes) {
        Some(q) => q,
        None => return Err(Error::not_found()),
    };
    let len = match scan_string(&bytes[quote_pos..bytes.len()]) {
        Ok(n) => n,
        Err(e) => return Err(e),
    };
    proof {
        lemma_string_scan(bytes@.skip(quote_pos as int));
    }
    let start = quote_pos + 1;
    let end = quote_pos + len;
    let field_name = &bytes[start..end - 1];
    Ok((bytes_equal(field_name, key), end))
}

pub proof fn lemma_segment_search(b: Seq<u8>, key: Seq<u8>)
    ensures
        segment_search(b, key) matches Ok((s, e)) ==> found_ok(b, s, e),
{
    if b.len() > 0 && b[0] == LBRACE {
        lemma_members_search(b.skip(1), key);
    }
}

pub proof fn lemma_members_search(s: Seq<u8>, key: Seq<u8>)
    ensures
        members_search(s, key) matches Ok((a, e)) ==> found_ok(s, a, e),
    decreases s.len(),
{
    if s.len() > 0 {
        lemma_field_at_quote(s, key);
        if let Ok((m, fe)) = field_at_quote(s, key) {
            let t = s.skip(fe);
            lemma_value_after_colon(t);
            if let Ok((st, n)) = value_after_colon(t) {
                if !m {
                    let k = fe + st + n;
                    let u = s.skip(k);
                    lemma_members_search(u, key);
                    if let Ok((a, e)) = members_search(u, key) {
                        assert(u[a - 1] == s[k + a - 1]);
                        assert(u[a] == s[k + a]);
                        assert(u[e - 1] == s[k + e - 1]);
                        if e < u.len() {
                            assert(u[e] == s[k + e]);
                        }
                    }
                } else {
                    assert(t[st - 1] == s[fe + st - 1]);
                    assert(t[st] == s[fe + st]);
                    assert(t[st + n - 1] == s[fe + st + n - 1]);
                    if st + n < t.len() {
                        assert(t[st + n] == s[fe + st + n]);
                    }
                }
            }
        }
    }
}

/// The first `x` of `a + c` is the first of `a`, or, when `a` has none, the
/// first of `c` moved past `a`.
pub proof fn lemma_index_of_concat(a: Seq<u8>, c: Seq<u8>, x: u8)
    ensures
        index_of(a + c, x) == match index_of(a, x) {
            Some(i) => Some(i),
            None => shift_opt(index_of(c, x), a.len() as int),
        },
    decreases a.len(),
{
    if a.len() == 0 {
        assert(a + c =~= c);
        assert(shift_opt(index_of(c, x), 0) == index_of(c, x));
    } else {
        assert((a + c)[0] == a[0]);
        if a[0] != x {
            assert((a + c).skip(1) =~= a.skip(1) + c);
            lemma_index_of_concat(a.skip(1), c, x);
        }
    }
}

/// Splitting `p.k` at dots gives the pieces of `p` and then `k`, when `k`
/// holds no dot.
pub proof fn lemma_split_dot_append(p: Seq<u8>, k: Seq<u8>)
    requires
        index_of(k, DOT) is None,
    ensures
        split_dot(p + seq![DOT] + k) == split_dot(p) + seq![k],
    decreases p.len(),
{
    let q = p + seq![DOT] + k;
    assert(q =~= p + (seq![DOT] + k));
    lemma_index_of_concat(p, seq![DOT] + k, DOT);
    lemma_index_of(p, DOT);
    match index_of(p, DOT) {
        Some(i) => {
            assert(q.take(i) =~= p.take(i));
            assert(q.skip(i + 1) =~= p.skip(i + 1) + seq![DOT] + k);
            lemma_split_dot_append(p.skip(i + 1), k);
            assert(split_dot(q) =~= seq![p.take(i)] + (split_dot(p.skip(i + 1)) + seq![k]));
            assert(split_dot(p) + seq![k] =~= seq![p.take(i)] + split_dot(p.skip(i + 1)) + seq![
                k,
            ]);
        },
        None => {
            assert((seq![DOT] + k)[0] == DOT);
            assert(index_of(seq![DOT] + k, DOT) == Some(0int));
            assert(q.take(p.len() as int) =~= p);
            assert(q.skip(p.len() + 1int) =~= k);
            assert(split_dot(k) == seq![k]);
            assert(split_dot(q) =~= seq![p] + seq![k]);
        },
    }
}

/// Splitting `p.q` at dots gives the pieces of `p`, then those of `q`.
pub proof fn lemma_split_dot_concat(p: Seq<u8>, q: Seq<u8>)
    ensures
        split_dot(p + seq![DOT] + q) == split_dot(p) + split_dot(q),
    decreases p.len(),
{
    let t = p + seq![DOT] + q;
    assert(t =~= p + (seq![DOT] + q));
    lemma_index_of_concat(p, seq![DOT] + q, DOT);
    lemma_index_of(p, DOT);
    match index_of(p, DOT) {
        Some(i) => {
            assert(t.take(i) =~= p.take(i));
            assert(t.skip(i + 1) =~= p.skip(i + 1) + seq![DOT] + q);
            lemma_split_dot_concat(p.skip(i + 1), q);
            assert(split_dot(t) =~= seq![p.take(i)] + (split_dot(p.skip(i + 1)) + split_dot(q)));
            assert(split_dot(p) + split_dot(q) =~= seq![p.take(i)] + split_dot(p.skip(i + 1))
                + split_dot(q));
        },
        None => {
            assert((seq![DOT] + q)[0] == DOT);
            assert(index_of(seq![DOT] + q, DOT) == Some(0int));
            assert(t.take(p.len() as int) =~= p);
            assert(t.skip(p.len() + 1int) =~= q);
            assert(split_dot(t) =~= seq![p] + split_dot(q));
        },
    }
}

/// Searching the keys `a + c` is searching `a`, then `c` from where `a` ends.
pub proof fn lemma_path_search_concat(
    b: Seq<u8>,
    a: Seq<Seq<u8>>,
    c: Seq<Seq<u8>>,
    start: int,
    end: int,
)
    ensures
        path_search(b, a + c, start, end) == match path_search(b, a, start, end) {
            Ok((s, e)) => path_search(b, c, s, e),
            Err(x) => Err(x),
        },
    decreases a.len(),
{
    if a.len() == 0 {
        assert(a + c =~= c);
    } else {
        assert((a + c)[0] == a[0]);
        assert((a + c).drop_first() =~= a.drop_first() + c);
        if let Ok((s, e)) = segment_search(b.subrange(start, end), a[0]) {
            lemma_path_search_concat(b, a.drop_first(), c, start + s, start + e);
        }
    }
}

/// A path search in the text after its first `w` bytes is the same search in
/// the whole text, moved by `w`.
pub proof fn lemma_path_search_skip(b: Seq<u8>, w: int, keys: Seq<Seq<u8>>, start: int, end: int)
    requires
        0 <= w <= b.len(),
        0 <= start <= end <= b.len() - w,
    ensures
        shift2(path_search(b.skip(w), keys, start, end), w) == path_search(
            b,
            keys,
            start + w,
            end + w,
        ),
    decreases keys.len(),
{
    if keys.len() > 0 {
        let sub = b.skip(w).subrange(start, end);
        assert(sub =~= b.subrange(start + w, end + w));
        lemma_segment_search(sub, keys[0]);
        if let Ok((s, e)) = segment_search(sub, keys[0]) {
            lemma_path_search_skip(b, w, keys.drop_first(), start + s, start + e);
        }
    }
}

/// A path search that starts inside a value ends inside one, and after at
/// least one key it ends on a value as the search finds one.
pub proof fn lemma_path_search(b: Seq<u8>, keys: Seq<Seq<u8>>, start: int, end: int)
    requires
        0 <= start <= end <= b.len(),
        end_ok(b, end),
    ensures
        path_search(b, keys, start, end) matches Ok((s, e)) ==> {
            &&& 0 <= s <= e <= b.len()
            &&& end_ok(b, e)
            &&& keys.len() > 0 ==> found_ok(b, s, e)
        },
    decreases keys.len(),
{
    if keys.len() > 0 {
        let sub = b.subrange(start, end);
        lemma_segment_search(sub, keys[0]);
        if let Ok((s, e)) = segment_search(sub, keys[0]) {
            assert(sub[s - 1] == b[start + s - 1]);
            assert(sub[s] == b[start + s]);
            assert(sub[e - 1] == b[start + e - 1]);
            if e < sub.len() {
                assert(sub[e] == b[start + e]);
            }
            lemma_path_search(b, keys.drop_first(), start + s, start + e);
        }
    }
}

/// A path step into a value that starts with `[` is not supported,
/// whatever the array holds.
pub proof fn search_refuses_arrays(b: Seq<u8>, key: Seq<u8>)
    requires
        b.len() > 0,
        b[0] == 0x5bu8,
    ensures
        segment_search(b, key) == Err::<(int, int), Kind>(Kind::UnsupportedArray),
{
}

} // verus!
