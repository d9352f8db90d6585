use vstd::prelude::*;
use vstd::string::StringSliceAdditionalSpecFns;
use vstd::utf8::{encode_utf8_valid_utf8, is_char_boundary, is_continuation_byte};

use crate::boundary::{lemma_boundary_beside_ascii, lemma_boundary_iff};
use crate::chars::{bytes_equal, DOT, LBRACE, LBRACKET, QUOTE};
use crate::cursor::{find_step, lemma_keys_step_concat, Cursor};
use crate::error::Error;
use crate::parser::{found_ok, lemma_split_dot_append, span_agrees, split_dot};
use crate::scanner::index_of;

verus! {

/// `text[s..e]` lies inside `text` with both ends on character boundaries.
pub open spec fn span_readable(text: Seq<u8>, s: int, e: int) -> bool {
    &&& 0 <= s <= e <= text.len()
    &&& is_char_boundary(text, s)
    &&& is_char_boundary(text, e)
}

/// `text[s..e]` can be read, and if it starts with a quote it is long enough to
/// drop both ends and its last byte ends a character.
pub open spec fn value_readable(text: Seq<u8>, s: int, e: int) -> bool {
    &&& span_readable(text, s, e)
    &&& s < e && text[s] == QUOTE ==> e - s >= 2 && !is_continuation_byte(text[e - 1])
}

/// A value as the search finds it in a text can be read back from it.
pub proof fn lemma_found_is_readable(data: &str, s: int, e: int)
    requires
        found_ok(data.spec_bytes(), s, e),
    ensures
        value_readable(data.spec_bytes(), s, e),
{
    let b = data.spec_bytes();
    encode_utf8_valid_utf8(data@);
    lemma_boundary_beside_ascii(b, s);
    lemma_boundary_beside_ascii(b, e);
}

/// The byte range `start..end` of a value inside the JSON text it was found in.
#[derive(Debug, Clone, Copy)]
pub struct Span {
    start: usize,
    end: usize,
}

impl View for Span {
    type V = (int, int);

    closed spec fn view(&self) -> (int, int) {
        (self.start as int, self.end as int)
    }
}

impl Span {
    pub(crate) fn new(start: usize, end: usize) -> (s: Self)
        ensures
            s@ == (start as int, end as int),
    {
        Self { start, end }
    }

    pub fn start(&self) -> (r: usize)
        ensures
            r == self@.0,
    {
        self.start
    }

    pub fn end(&self) -> (r: usize)
        ensures
            r == self@.1,
    {
        self.end
    }

    /// Returns the JSON text this span covers.
    ///
    /// Use [`Self::value`] to read it as a Rust type.
    pub fn get<'a>(&self, data: &'a str) -> (r: &'a str)
        requires
            span_readable(data.spec_bytes(), self@.0, self@.1),
        ensures
            r.spec_bytes() == data.spec_bytes().subrange(self@.0, self@.1),
    {
        str_range(data, self.start, self.end)
    }

    /// Finds the value at the dotted path `pattern` inside the object this
    /// span covers in `data`.
    pub fn find(&self, pattern: &str, data: &str) -> (r: Result<Span, Error>)
        requires
            find_step(data.spec_bytes(), self@.0, pattern.spec_bytes()).0 <= usize::MAX,
        ensures
            span_agrees(r, find_step(data.spec_bytes(), self@.0, pattern.spec_bytes()).1),
            r matches Ok(span) ==> value_readable(data.spec_bytes(), span@.0, span@.1),
    {
        let mut cursor = Cursor::new(data.as_bytes(), self.start);
        let r = cursor.find(pattern);
        proof {
            if let Ok(span) = r {
                lemma_found_is_readable(data, span@.0, span@.1);
            }
        }
        r
    }

    /// Converts the text [`Self::get`] returns into a Rust type.
    pub fn value<'a>(&self, data: &'a str) -> (r: Value<'a>)
        requires
            value_readable(data.spec_bytes(), self@.0, self@.1),
        ensures
            r@ == classify_spec(data.spec_bytes().subrange(self@.0, self@.1)),
    {
        let slice = self.get(data);
        Value::classify(slice)
    }
}

/// `s[from..to]`, by byte offsets on character boundaries.
fn str_range<'a>(s: &'a str, from: usize, to: usize) -> (r: &'a str)
    requires
        span_readable(s.spec_bytes(), from as int, to as int),
    ensures
        r.spec_bytes() == s.spec_bytes().subrange(from as int, to as int),
{
    let (head, _) = s.split_at(to);
    proof {
        let b = s.spec_bytes();
        encode_utf8_valid_utf8(s@);
        encode_utf8_valid_utf8(head@);
        lemma_boundary_iff(b, from as int);
        lemma_boundary_iff(head.spec_bytes(), from as int);
        if from < to {
            assert(head.spec_bytes()[from as int] == b[from as int]);
        }
    }
    let (_, text) = head.split_at(from);
    proof {
        assert(text.spec_bytes() =~= s.spec_bytes().subrange(from as int, to as int));
    }
    text
}

/// What the text of a value is, as plain bytes.
pub enum ValueModel {
    String(Seq<u8>),
    Number(Seq<u8>),
    Object(Seq<u8>),
    Array(Seq<u8>),
    Bool(bool),
    Null,
}

/// The bytes of `true`, `false` and `null`.
pub open spec fn true_bytes() -> Seq<u8> {
    seq![0x74u8, 0x72, 0x75, 0x65]
}

pub open spec fn false_bytes() -> Seq<u8> {
    seq![0x66u8, 0x61, 0x6c, 0x73, 0x65]
}

pub open spec fn null_bytes() -> Seq<u8> {
    seq![0x6eu8, 0x75, 0x6c, 0x6c]
}

/// How the text of a value reads: by its first byte a string (without its
/// quotes), an object or an array; otherwise one of the three literals, and
/// anything else is taken for a number.
pub open spec fn classify_spec(t: Seq<u8>) -> ValueModel {
    if t.len() > 0 && t[0] == QUOTE {
        ValueModel::String(t.subrange(1, t.len() - 1))
    } else if t.len() > 0 && t[0] == LBRACE {
        ValueModel::Object(t)
    } else if t.len() > 0 && t[0] == LBRACKET {
        ValueModel::Array(t)
    } else if t == true_bytes() {
        ValueModel::Bool(true)
    } else if t == false_bytes() {
        ValueModel::Bool(false)
    } else if t == null_bytes() {
        ValueModel::Null
    } else {
        ValueModel::Number(t)
    }
}

/// A found value read as a Rust type; the texts borrow from the JSON text.
#[derive(Debug, Clone, Copy, PartialEq, Eq, Hash)]
pub enum Value<'a> {
    String(&'a str),
    Number(&'a str),
    Object(&'a str),
    Array(&'a str),
    Bool(bool),
    Null,
}

impl<'a> View for Value<'a> {
    type V = ValueModel;

    open spec fn view(&self) -> ValueModel {
        match *self {
            Value::String(s) => ValueModel::String(s.spec_bytes()),
            Value::Number(s) => ValueModel::Number(s.spec_bytes()),
            Value::Object(s) => ValueModel::Object(s.spec_bytes()),
            Value::Array(s) => ValueModel::Array(s.spec_bytes()),
            Value::Bool(b) => ValueModel::Bool(b),
            Value::Null => ValueModel::Null,
        }
    }
}

impl<'a> Value<'a> {
    fn classify(data: &'a str) -> (r: Self)
        requires
            data.spec_bytes().len() > 0 && data.spec_bytes()[0] == QUOTE ==> data.spec_bytes().len()
                >= 2 && !is_continuation_byte(data.spec_bytes()[data.spec_bytes().len() - 1]),
        ensures
            r@ == classify_spec(data.spec_bytes()),
    {
        let bytes = data.as_bytes();
        let true_word: [u8; 4] = [0x74, 0x72, 0x75, 0x65];
        let false_word: [u8; 5] = [0x66, 0x61, 0x6c, 0x73, 0x65];
        let null_word: [u8; 4] = [0x6e, 0x75, 0x6c, 0x6c];
        match bytes.first() {
            Some(first) if *first == QUOTE => {
                proof {
                    let b = data.spec_bytes();
                    encode_utf8_valid_utf8(data@);
                    lemma_boundary_beside_ascii(b, 1);
                    lemma_boundary_iff(b, b.len() - 1);
                }
                Self::String(str_range(data, 1, bytes.len() - 1))
            },
            Some(first) if *first == LBRACE => Self::Object(data),
            Some(first) if *first == LBRACKET => Self::Array(data),
            _ => {
                proof {
                    assert(true_word@ =~= true_bytes());
                    assert(false_word@ =~= false_bytes());
                    assert(null_word@ =~= null_bytes());
                }
                if bytes_equal(bytes, true_word.as_slice()) {
                    Self::Bool(true)
                } else if bytes_equal(bytes, false_word.as_slice()) {
                    Self::Bool(false)
                } else if bytes_equal(bytes, null_word.as_slice()) {
                    Self::Null
                } else {
                    Self::Number(data)
                }
            },
        }
    }

    pub fn is_string(&self) -> (r: bool)
        ensures
            r == (*self is String),
    {
        matches!(self, Self::String(_))
    }

    pub fn is_number(&self) -> (r: bool)
        ensures
            r == (*self is Number),
    {
        matches!(self, Self::Number(_))
    }

    pub fn is_object(&self) -> (r: bool)
        ensures
            r == (*self is Object),
    {
        matches!(self, Self::Object(_))
    }

    pub fn is_array(&self) -> (r: bool)
        ensures
            r == (*self is Array),
    {
        matches!(self, Self::Array(_))
    }

    pub fn is_bool(&self) -> (r: bool)
        ensures
            r == (*self is Bool),
    {
        matches!(self, Self::Bool(_))
    }

    pub fn is_null(&self) -> (r: bool)
        ensures
            r == (*self is Null),
    {
        matches!(self, Self::Null)
    }

    pub fn as_str(&self) -> (r: Option<&'a str>)
        ensures
            r == (match *self {
                Value::String(s) => Some(s),
                _ => None,
            }),
    {
        match *self {
            Self::String(s) => Some(s),
            _ => None,
        }
    }

    pub fn as_number(&self) -> (r: Option<&'a str>)
        ensures
            r == (match *self {
                Value::Number(n) => Some(n),
                _ => None,
            }),
    {
        match *self {
            Self::Number(n) => Some(n),
            _ => None,
        }
    }

    pub fn as_object(&self) -> (r: Option<&'a str>)
        ensures
            r == (match *self {
                Value::Object(o) => Some(o),
                _ => None,
            }),
    {
        match *self {
            Self::Object(o) => Some(o),
            _ => None,
        }
    }

    pub fn as_array(&self) -> (r: Option<&'a str>)
        ensures
            r == (match *self {
                Value::Array(a) => Some(a),
                _ => None,
            }),
    {
        match *self {
            Self::Array(a) => Some(a),
            _ => None,
        }
    }

    pub fn as_bool(&self) -> (r: Option<bool>)
        ensures
            r == (match *self {
                Value::Bool(b) => Some(b),
                _ => None,
            }),
    {
        match *self {
            Self::Bool(b) => Some(b),
            _ => None,
        }
    }
}

/// Searching the dotted path `pattern.key` from `start` answers as searching
/// `key` from the value that searching `pattern` from `start` found, for a key
/// without dots: a span `Span::find` returned can be searched on.
pub proof fn span_find_extends_path(data: Seq<u8>, start: int, pattern: Seq<u8>, key: Seq<u8>)
    requires
        0 <= start,
        index_of(key, DOT) is None,
    ensures
        find_step(data, start, pattern).1 matches Ok((s, e)) ==> find_step(
            data,
            start,
            pattern + seq![DOT] + key,
        ).1 == find_step(data, s, key).1,
{
    lemma_split_dot_append(pattern, key);
    lemma_keys_step_concat(data, start, split_dot(pattern), seq![key]);
    assert(split_dot(key) == seq![key]);
}

/// A found text is read by its first byte: `[` makes it an array of that
/// very text, `{` an object of it, `"` a string of what lies between the
/// quotes; the three literal words read as themselves.
pub proof fn value_kind_by_first_byte(t: Seq<u8>)
    ensures
        t.len() > 0 && t[0] == 0x5bu8 ==> classify_spec(t) == ValueModel::Array(t),
        t.len() > 0 && t[0] == 0x7bu8 ==> classify_spec(t) == ValueModel::Object(t),
        t.len() > 0 && t[0] == 0x22u8 ==> classify_spec(t) == ValueModel::String(
            t.subrange(1, t.len() - 1),
        ),
        t == seq![0x74u8, 0x72, 0x75, 0x65] ==> classify_spec(t) == ValueModel::Bool(true),
        t == seq![0x66u8, 0x61, 0x6c, 0x73, 0x65] ==> classify_spec(t) == ValueModel::Bool(false),
        t == seq![0x6eu8, 0x75, 0x6c, 0x6c] ==> classify_spec(t) == ValueModel::Null,
{
}

/// Every value is of exactly one kind: one `is_*` predicate holds.
pub proof fn value_has_one_kind<'a>(v: Value<'a>)
    ensures
        (v is String) as int + (v is Number) as int + (v is Object) as int + (v is Array) as int
            + (v is Bool) as int + (v is Null) as int == 1,
{
}

/// The text of a found string is the text between its quotes: it is never
/// taken for a number, a literal or null.
pub proof fn quoted_text_is_a_string(t: Seq<u8>)
    requires
        t.len() >= 2,
        t[0] == QUOTE,
    ensures
        classify_spec(t) == ValueModel::String(t.subrange(1, t.len() - 1)),
{
}

} // verus!
