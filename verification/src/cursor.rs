//! A cursor over JSON bytes that steps through a document in place; the
//! search behind `Span::find`.
//!
//! Each operation is described by a spec function of the bytes and the
//! position it starts from, giving the position the cursor ends at and
//! whether the operation succeeded.
use vstd::prelude::*;
use vstd::slice::spec_slice_len;
use vstd::string::StringSliceAdditionalSpecFns;

use crate::chars::{
    bytes_equal, is_delimiter, is_json_ws, json_ws, BACKSLASH, COLON, COMMA, DOT, LBRACE,
    LBRACKET, QUOTE, RBRACE, RBRACKET,
};
use crate::error::{Error, Kind};
use crate::parser::{found_ok, lemma_split_dot_nonempty, segment_end, split_dot, span_agrees};
use crate::scanner::{
    array_rest, array_scan, lemma_array_scan, lemma_index_of, lemma_string_scan, lemma_token_len,
    is_string_body, object_rest, object_scan, string_body_end, string_scan,
    string_scan_measures_a_literal, token_len,
};
use crate::span::{false_bytes, null_bytes, true_bytes, Span};

verus! {

/// The cursor's outcome after an operation: where it stands, and whether it
/// succeeded.
pub type Step = (int, Result<(), Kind>);

/// A position in a byte slice.
#[derive(Clone, Copy)]
pub struct Cursor<'a> {
    bytes: &'a [u8],
    pos: usize,
}

impl<'a> View for Cursor<'a> {
    type V = (Seq<u8>, int);

    closed spec fn view(&self) -> (Seq<u8>, int) {
        (self.bytes@, self.pos as int)
    }
}

/// An executable outcome agrees with a spec one.
pub open spec fn unit_agrees(r: Result<(), Error>, s: Result<(), Kind>) -> bool {
    match (r, s) {
        (Ok(_), Ok(_)) => true,
        (Err(e), Err(k)) => e@ == k,
        _ => false,
    }
}

pub open spec fn peek_at(b: Seq<u8>, p: int) -> Option<u8> {
    if 0 <= p < b.len() {
        Some(b[p])
    } else {
        None
    }
}

/// Where the cursor stands after skipping JSON whitespace from `p`.
pub open spec fn ws_end(b: Seq<u8>, p: int) -> int
    decreases b.len() - p,
{
    if 0 <= p < b.len() && is_json_ws(b[p]) {
        ws_end(b, p + 1)
    } else {
        p
    }
}

/// Inside a string, from `q`: past the closing quote, or an unterminated string.
pub open spec fn string_step(b: Seq<u8>, q: int) -> Step
    decreases b.len() + 2 - q,
{
    if q < 0 || q >= b.len() {
        (q, Err(Kind::UnterminatedString))
    } else if b[q] == QUOTE {
        (q + 1, Ok(()))
    } else if b[q] == BACKSLASH {
        // the escaped byte goes with the backslash, wherever that leaves the cursor
        string_step(b, q + 2)
    } else {
        string_step(b, q + 1)
    }
}

/// Inside an array at nesting `depth`, from `q`: past the closing `]`.
pub open spec fn array_step(b: Seq<u8>, q: int, depth: nat) -> Step
    decreases b.len() - q,
{
    if depth == 0 {
        (q, Ok(()))
    } else if q < 0 || q >= b.len() {
        (q, Err(Kind::UnmatchedBracket))
    } else if b[q] == QUOTE {
        let s = string_step(b, q + 1);
        if s.1 is Err {
            s
        } else {
            proof {
                lemma_string_step(b, q + 1);
            }
            array_step(b, s.0, depth)
        }
    } else if b[q] == LBRACKET {
        array_step(b, q + 1, depth + 1)
    } else if b[q] == RBRACKET {
        array_step(b, q + 1, (depth - 1) as nat)
    } else {
        array_step(b, q + 1, depth)
    }
}

/// Inside an object at nesting `depth`, from `q`: past the closing `}`.
pub open spec fn object_step(b: Seq<u8>, q: int, depth: nat) -> Step
    decreases b.len() - q,
{
    if depth == 0 {
        (q, Ok(()))
    } else if q < 0 || q >= b.len() {
        (q, Err(Kind::UnmatchedBracket))
    } else if b[q] == QUOTE {
        let s = string_step(b, q + 1);
        if s.1 is Err {
            s
        } else {
            proof {
                lemma_string_step(b, q + 1);
            }
            object_step(b, s.0, depth)
        }
    } else if b[q] == LBRACKET {
        let s = array_step(b, q + 1, 1);
        if s.1 is Err {
            s
        } else {
            proof {
                lemma_array_step(b, q + 1, 1);
            }
            object_step(b, s.0, depth)
        }
    } else if b[q] == LBRACE {
        object_step(b, q + 1, depth + 1)
    } else if b[q] == RBRACE {
        object_step(b, q + 1, (depth - 1) as nat)
    } else {
        object_step(b, q + 1, depth)
    }
}

/// The literal `w` at `p`, or nothing moved.
pub open spec fn literal_step(b: Seq<u8>, p: int, w: Seq<u8>) -> Step {
    if p + w.len() <= b.len() && b.subrange(p, p + w.len()) == w {
        (p + w.len(), Ok(()))
    } else {
        (p, Err(Kind::InvalidJson))
    }
}

/// A bare value at `p`: up to a delimiter, JSON whitespace or the end.
pub open spec fn primitive_step(b: Seq<u8>, p: int) -> Step {
    let t = if 0 <= p < b.len() {
        token_len(b.skip(p))
    } else {
        0
    };
    if t == 0 {
        (p, Err(Kind::InvalidJson))
    } else {
        (p + t, Ok(()))
    }
}

/// The value at `p`, by its first byte.
pub open spec fn value_step(b: Seq<u8>, p: int) -> Step {
    if p < 0 || p >= b.len() {
        (p, Err(Kind::InvalidJson))
    } else if b[p] == QUOTE {
        string_step(b, p + 1)
    } else if b[p] == LBRACE {
        object_step(b, p + 1, 1)
    } else if b[p] == LBRACKET {
        array_step(b, p + 1, 1)
    } else if b[p] == 0x74 {
        literal_step(b, p, true_bytes())
    } else if b[p] == 0x66 {
        literal_step(b, p, false_bytes())
    } else if b[p] == 0x6e {
        literal_step(b, p, null_bytes())
    } else {
        primitive_step(b, p)
    }
}

/// Members of an object from `p` on: stop at the value of field `key`.
pub open spec fn members_step(b: Seq<u8>, p: int, key: Seq<u8>) -> Step
    decreases b.len() - p,
{
    let p1 = ws_end(b, p);
    if !(0 <= p1 < b.len() && b[p1] == QUOTE) {
        (p1, Err(Kind::InvalidJson))
    } else {
        let s = string_step(b, p1 + 1);
        if s.1 is Err {
            s
        } else {
            let p2 = s.0;
            let is_match = b.subrange(p1 + 1, p2 - 1) == key;
            let p3 = ws_end(b, p2);
            if !(0 <= p3 < b.len() && b[p3] == COLON) {
                (p3, Err(Kind::InvalidJson))
            } else {
                let p4 = ws_end(b, p3 + 1);
                if is_match {
                    (p4, Ok(()))
                } else {
                    let v = value_step(b, p4);
                    if v.1 is Err {
                        v
                    } else {
                        let p6 = ws_end(b, v.0);
                        proof {
                            lemma_ws_end(b, p);
                            lemma_string_step(b, p1 + 1);
                            lemma_ws_end(b, p2);
                            lemma_ws_end(b, p3 + 1);
                            lemma_value_step(b, p4);
                            lemma_ws_end(b, v.0);
                        }
                        if 0 <= p6 < b.len() && b[p6] == COMMA {
                            members_step(b, p6 + 1, key)
                        } else if 0 <= p6 < b.len() && b[p6] == RBRACE {
                            (p6, Err(Kind::NotFound))
                        } else {
                            (p6, Err(Kind::InvalidJson))
                        }
                    }
                }
            }
        }
    }
}

/// At the `{` at `p`: stop at the value of field `key`.
pub open spec fn field_step(b: Seq<u8>, p: int, key: Seq<u8>) -> Step {
    let p1 = ws_end(b, p + 1);
    if 0 <= p1 < b.len() && b[p1] == RBRACE {
        (p1, Err(Kind::NotFound))
    } else {
        members_step(b, p1, key)
    }
}

/// Down the keys `keys`, one object at a time, from `p`.
pub open spec fn keys_step(b: Seq<u8>, p: int, keys: Seq<Seq<u8>>) -> Step
    decreases keys.len(),
{
    if keys.len() == 0 {
        (p, Ok(()))
    } else if p < 0 || p >= b.len() {
        (p, Err(Kind::InvalidJson))
    } else if b[p] == LBRACE {
        let s = field_step(b, p, keys[0]);
        if s.1 is Err {
            s
        } else {
            keys_step(b, s.0, keys.drop_first())
        }
    } else if b[p] == LBRACKET {
        (p, Err(Kind::UnsupportedArray))
    } else {
        (p, Err(Kind::NotFound))
    }
}

/// What `Cursor::find` does from `p`: where the cursor ends, and the span of
/// the value at the dotted path `pattern`, which must be followed by `,` or `}`.
pub open spec fn find_step(b: Seq<u8>, p: int, pattern: Seq<u8>) -> (int, Result<(int, int), Kind>) {
    let k = keys_step(b, p, split_dot(pattern));
    match k.1 {
        Err(e) => (k.0, Err(e)),
        Ok(_) => {
            let v = value_step(b, k.0);
            match v.1 {
                Err(e) => (v.0, Err(e)),
                Ok(_) => {
                    let p3 = ws_end(b, v.0);
                    if 0 <= p3 < b.len() && (b[p3] == COMMA || b[p3] == RBRACE) {
                        (p3, Ok((k.0, v.0)))
                    } else {
                        (p3, Err(Kind::InvalidJson))
                    }
                },
            }
        },
    }
}

// ---------------------------------------------------------------------------

impl<'a> Cursor<'a> {
    pub fn new(bytes: &'a [u8], pos: usize) -> (c: Self)
        ensures
            c@ == (bytes@, pos as int),
    {
        Self { bytes, pos }
    }

    pub fn pos(&self) -> (r: usize)
        ensures
            r == self@.1,
    {
        self.pos
    }

    pub fn peek(&self) -> (r: Option<u8>)
        ensures
            r == peek_at(self@.0, self@.1),
    {
        if self.pos < self.bytes.len() {
            Some(self.bytes[self.pos])
        } else {
            None
        }
    }

    pub fn advance(&mut self)
        requires
            old(self)@.1 < usize::MAX,
        ensures
            final(self)@ == (old(self)@.0, old(self)@.1 + 1),
    {
        self.pos = self.pos + 1;
    }

    /// Steps over `b` when it is the next byte; says whether it was.
    pub fn eat(&mut self, b: u8) -> (found: bool)
        ensures
            found == (peek_at(old(self)@.0, old(self)@.1) == Some(b)),
            final(self)@ == (old(self)@.0, if found {
                old(self)@.1 + 1
            } else {
                old(self)@.1
            }),
    {
        let found = match self.peek() {
            Some(next) => next == b,
            None => false,
        };
        if found {
            proof {
                self.lemma_len_fits();
            }
            self.advance();
        }
        found
    }

    proof fn lemma_len_fits(&self)
        ensures
            self@.0.len() <= usize::MAX,
    {
        assert(spec_slice_len(self.bytes) == self.bytes@.len());
    }

    /// The bytes from `start` up to the cursor.
    pub fn slice(&self, start: usize) -> (r: &'a [u8])
        requires
            start <= self@.1 <= self@.0.len(),
        ensures
            r@ == self@.0.subrange(start as int, self@.1),
    {
        &self.bytes[start..self.pos]
    }
}

impl<'a> Cursor<'a> {
    /// Steps over the value at the cursor.
    pub fn skip_value(&mut self) -> (r: Result<(), Error>)
        requires
            value_step(old(self)@.0, old(self)@.1).0 <= usize::MAX,
        ensures
            final(self)@ == (old(self)@.0, value_step(old(self)@.0, old(self)@.1).0),
            unit_agrees(r, value_step(old(self)@.0, old(self)@.1).1),
    {
        let true_word: [u8; 4] = [0x74, 0x72, 0x75, 0x65];
        let false_word: [u8; 5] = [0x66, 0x61, 0x6c, 0x73, 0x65];
        let null_word: [u8; 4] = [0x6e, 0x75, 0x6c, 0x6c];
        proof {
            self.lemma_len_fits();
            assert(true_word@ =~= true_bytes());
            assert(false_word@ =~= false_bytes());
            assert(null_word@ =~= null_bytes());
        }
        match self.peek() {
            Some(b) => if b == QUOTE {
                self.skip_string()
            } else if b == LBRACE {
                self.skip_object()
            } else if b == LBRACKET {
                self.skip_array()
            } else if b == 0x74 {
                self.skip_literal(true_word.as_slice())
            } else if b == 0x66 {
                self.skip_literal(false_word.as_slice())
            } else if b == 0x6e {
                self.skip_literal(null_word.as_slice())
            } else {
                self.skip_primitive()
            },
            None => Err(Error::invalid_json()),
        }
    }

    fn skip_object(&mut self) -> (r: Result<(), Error>)
        requires
            old(self)@.1 < old(self)@.0.len(),
            object_step(old(self)@.0, old(self)@.1 + 1, 1).0 <= usize::MAX,
        ensures
            final(self)@ == (old(self)@.0, object_step(old(self)@.0, old(self)@.1 + 1, 1).0),
            unit_agrees(r, object_step(old(self)@.0, old(self)@.1 + 1, 1).1),
    {
        let ghost b = self@.0;
        proof {
            self.lemma_len_fits();
        }
        let ghost start = self@.1 + 1;
        // `{`
        self.advance();
        let mut depth: usize = 1;
        while depth > 0
            invariant
                self@.0 == b,
                old(self)@.0 == b,
                b.len() <= usize::MAX,
                start == old(self)@.1 + 1,
                start <= self@.1 <= b.len(),
                depth <= self@.1,
                object_step(b, start, 1) == object_step(b, self@.1, depth as nat),
                object_step(b, start, 1).0 <= usize::MAX,
            decreases b.len() - self@.1,
        {
            match self.peek() {
                Some(c) => {
                    if c == QUOTE {
                        proof {
                            lemma_string_step(b, self@.1 + 1);
                        }
                        match self.skip_string() {
                            Ok(()) => {},
                            Err(e) => return Err(e),
                        }
                    } else if c == LBRACKET {
                        proof {
                            lemma_array_step(b, self@.1 + 1, 1);
                        }
                        match self.skip_array() {
                            Ok(()) => {},
                            Err(e) => return Err(e),
                        }
                    } else if c == LBRACE {
                        depth = depth + 1;
                        self.advance();
                    } else if c == RBRACE {
                        depth = depth - 1;
                        self.advance();
                    } else {
                        self.advance();
                    }
                },
                None => return Err(Error::unmatched_bracket()),
            }
        }
        Ok(())
    }

    fn skip_array(&mut self) -> (r: Result<(), Error>)
        requires
            old(self)@.1 < old(self)@.0.len(),
            array_step(old(self)@.0, old(self)@.1 + 1, 1).0 <= usize::MAX,
        ensures
            final(self)@ == (old(self)@.0, array_step(old(self)@.0, old(self)@.1 + 1, 1).0),
            unit_agrees(r, array_step(old(self)@.0, old(self)@.1 + 1, 1).1),
    {
        let ghost b = self@.0;
        proof {
            self.lemma_len_fits();
        }
        let ghost start = self@.1 + 1;
        // `[`
        self.advance();
        let mut depth: usize = 1;
        while depth > 0
            invariant
                self@.0 == b,
                old(self)@.0 == b,
                b.len() <= usize::MAX,
                start == old(self)@.1 + 1,
                start <= self@.1 <= b.len(),
                depth <= self@.1,
                array_step(b, start, 1) == array_step(b, self@.1, depth as nat),
                array_step(b, start, 1).0 <= usize::MAX,
            decreases b.len() - self@.1,
        {
            match self.peek() {
                Some(c) => {
                    if c == QUOTE {
                        proof {
                            lemma_string_step(b, self@.1 + 1);
                        }
                        match self.skip_string() {
                            Ok(()) => {},
                            Err(e) => return Err(e),
                        }
                    } else if c == LBRACKET {
                        depth = depth + 1;
                        self.advance();
                    } else if c == RBRACKET {
                        depth = depth - 1;
                        self.advance();
                    } else {
                        self.advance();
                    }
                },
                None => return Err(Error::unmatched_bracket()),
            }
        }
        Ok(())
    }

    /// Steps over the string whose opening quote is at the cursor.
    pub fn skip_string(&mut self) -> (r: Result<(), Error>)
        requires
            string_step(old(self)@.0, old(self)@.1 + 1).0 <= usize::MAX,
        ensures
            final(self)@ == (old(self)@.0, string_step(old(self)@.0, old(self)@.1 + 1).0),
            unit_agrees(r, string_step(old(self)@.0, old(self)@.1 + 1).1),
    {
        let ghost b = self@.0;
        proof {
            self.lemma_len_fits();
        }
        let ghost start = self@.1 + 1;
        proof {
            lemma_string_step(b, start);
        }
        // '"'
        self.advance();
        loop
            invariant
                self@.0 == b,
                old(self)@.0 == b,
                b.len() <= usize::MAX,
                string_step(b, start).0 <= usize::MAX,
                start == old(self)@.1 + 1,
                start <= self@.1,
                self@.1 <= b.len() + 1 || self@.1 == start,
                string_step(b, start) == string_step(b, self@.1),
            decreases if self@.1 <= b.len() + 1 {
                b.len() + 2 - self@.1
            } else {
                0
            },
        {
            match self.peek() {
                Some(c) => {
                    if c == QUOTE {
                        self.advance();
                        return Ok(());
                    } else if c == BACKSLASH {
                        // skip the escaped byte
                        proof {
                            lemma_string_step(b, self@.1 + 2);
                        }
                        self.pos = self.pos + 2;
                    } else {
                        self.advance();
                    }
                },
                None => return Err(Error::unterminated_string()),
            }
        }
    }

    fn skip_literal(&mut self, word: &[u8]) -> (r: Result<(), Error>)
        requires
            old(self)@.1 < old(self)@.0.len(),
            word@.len() <= 5,
        ensures
            final(self)@ == (old(self)@.0, literal_step(old(self)@.0, old(self)@.1, word@).0),
            unit_agrees(r, literal_step(old(self)@.0, old(self)@.1, word@).1),
    {
        if word.len() <= self.bytes.len() - self.pos && bytes_equal(
            &self.bytes[self.pos..self.pos + word.len()],
            word,
        ) {
            self.pos = self.pos + word.len();
            Ok(())
        } else {
            Err(Error::invalid_json())
        }
    }

    fn skip_primitive(&mut self) -> (r: Result<(), Error>)
        requires
            old(self)@.1 < old(self)@.0.len(),
        ensures
            final(self)@ == (old(self)@.0, primitive_step(old(self)@.0, old(self)@.1).0),
            unit_agrees(r, primitive_step(old(self)@.0, old(self)@.1).1),
    {
        let ghost b = self@.0;
        proof {
            self.lemma_len_fits();
        }
        let start = self.pos;
        assert(b.skip(start as int) =~= b.skip(start as int).skip(0));
        loop
            invariant
                self@.0 == b,
                old(self)@.0 == b,
                b.len() <= usize::MAX,
                start == old(self)@.1,
                start <= self@.1 <= b.len(),
                start < b.len(),
                token_len(b.skip(start as int)) == (self@.1 - start) + token_len(b.skip(self@.1)),
            ensures
                self@.0 == b,
                start <= self@.1 <= b.len(),
                token_len(b.skip(start as int)) == self@.1 - start,
            decreases b.len() - self@.1,
        {
            match self.peek() {
                Some(c) => {
                    if delimiter_or_ws(c) {
                        break;
                    }
                    assert(b.skip(self@.1).skip(1) =~= b.skip(self@.1 + 1));
                    proof {
                        self.lemma_len_fits();
                    }
                    self.advance();
                },
                None => break,
            }
        }
        if self.pos == start {
            Err(Error::invalid_json())
        } else {
            Ok(())
        }
    }

    /// Steps over JSON whitespace; returns the byte the cursor stops at.
    pub fn skip_whitespace(&mut self) -> (r: Option<u8>)
        ensures
            final(self)@ == (old(self)@.0, ws_end(old(self)@.0, old(self)@.1)),
            r == peek_at(old(self)@.0, ws_end(old(self)@.0, old(self)@.1)),
    {
        let ghost b = self@.0;
        proof {
            self.lemma_len_fits();
        }
        let ghost start = self@.1;
        loop
            invariant
                self@.0 == b,
                old(self)@.0 == b,
                b.len() <= usize::MAX,
                start == old(self)@.1,
                start <= self@.1,
                self@.1 <= b.len() || self@.1 == start,
                ws_end(b, start) == ws_end(b, self@.1),
            decreases if self@.1 <= b.len() {
                b.len() - self@.1
            } else {
                0
            },
        {
            match self.peek() {
                Some(c) => {
                    if !json_ws(c) {
                        return Some(c);
                    }
                    proof {
                        self.lemma_len_fits();
                    }
                    self.advance();
                },
                None => return None,
            }
        }
    }
}

impl<'a> Cursor<'a> {
    /// Finds the value at the dotted path `pattern`, starting at the object
    /// under the cursor; the value must be followed by `,` or `}`.
    pub fn find(&mut self, pattern: &str) -> (r: Result<Span, Error>)
        requires
            find_step(old(self)@.0, old(self)@.1, pattern.spec_bytes()).0 <= usize::MAX,
        ensures
            final(self)@ == (old(self)@.0, find_step(old(self)@.0, old(self)@.1, pattern.spec_bytes()).0),
            span_agrees(r, find_step(old(self)@.0, old(self)@.1, pattern.spec_bytes()).1),
            r matches Ok(span) ==> found_ok(old(self)@.0, span@.0, span@.1),
    {
        let ghost b = self@.0;
        proof {
            self.lemma_len_fits();
        }
        let ghost p0 = self@.1;
        let p = pattern.as_bytes();
        let ghost pb = p@;
        let mut seg_start: usize = 0;
        assert(pb.skip(0) =~= pb);
        loop
            invariant_except_break
                keys_step(b, p0, split_dot(pb)) == keys_step(
                    b,
                    self@.1,
                    split_dot(pb.skip(seg_start as int)),
                ),
            invariant
                self@.0 == b,
                old(self)@.0 == b,
                b.len() <= usize::MAX,
                old(self)@.1 == p0,
                pb == p@,
                pb == pattern.spec_bytes(),
                seg_start <= pb.len(),
                keys_step(b, p0, split_dot(pb)).1 is Err ==> keys_step(b, p0, split_dot(pb)).0
                    <= usize::MAX,
            ensures
                self@.0 == b,
                keys_step(b, p0, split_dot(pb)) == (self@.1, Ok::<(), Kind>(())),
            decreases pb.len() - seg_start,
        {
            let ghost rest = pb.skip(seg_start as int);
            let ghost here = self@.1;
            let seg_end = segment_end(p, seg_start);
            proof {
                lemma_index_of(rest, DOT);
                lemma_split_dot_nonempty(rest);
            }
            let key = &p[seg_start..seg_end];
            proof {
                assert(key@ =~= rest.take(seg_end - seg_start));
                assert(split_dot(rest)[0] =~= key@);
            }
            match self.peek() {
                Some(c) => {
                    if c == LBRACE {
                        proof {
                            lemma_ws_end(b, here + 1);
                            lemma_members_step(b, ws_end(b, here + 1), key@);
                        }
                        match self.find_value(key) {
                            Ok(()) => {},
                            Err(e) => return Err(e),
                        }
                    } else if c == LBRACKET {
                        return Err(Error::unsupported_array());
                    } else {
                        return Err(Error::not_found());
                    }
                },
                None => return Err(Error::invalid_json()),
            }
            assert(keys_step(b, here, split_dot(rest)) == keys_step(
                b,
                self@.1,
                split_dot(rest).drop_first(),
            ));
            if seg_end == p.len() {
                assert(split_dot(rest) =~= seq![rest]);
                break;
            }
            proof {
                assert(rest.skip(seg_end - seg_start + 1) =~= pb.skip(seg_end + 1));
                assert(split_dot(rest).drop_first() =~= split_dot(pb.skip(seg_end + 1)));
            }
            seg_start = seg_end + 1;
        }
        let start = self.pos();
        match self.skip_value() {
            Ok(()) => {},
            Err(e) => return Err(e),
        }
        let end = self.pos();
        proof {
            lemma_find_step(b, p0, pb);
        }
        match self.skip_whitespace() {
            Some(c) => if c == COMMA || c == RBRACE {
                Ok(Span::new(start, end))
            } else {
                Err(Error::invalid_json())
            },
            None => Err(Error::invalid_json()),
        }
    }

    /// With the cursor at `{`: moves it to the value of field `key`.
    fn find_value(&mut self, key: &[u8]) -> (r: Result<(), Error>)
        requires
            0 <= old(self)@.1 < old(self)@.0.len(),
            field_step(old(self)@.0, old(self)@.1, key@).0 <= usize::MAX,
        ensures
            final(self)@ == (old(self)@.0, field_step(old(self)@.0, old(self)@.1, key@).0),
            unit_agrees(r, field_step(old(self)@.0, old(self)@.1, key@).1),
    {
        let ghost b = self@.0;
        proof {
            self.lemma_len_fits();
        }
        let ghost p0 = self@.1;
        // `{`
        self.advance();
        proof {
            lemma_ws_end(b, p0 + 1);
        }
        match self.skip_whitespace() {
            Some(c) => if c == RBRACE {
                return Err(Error::not_found());
            },
            None => {},
        }
        loop
            invariant
                self@.0 == b,
                old(self)@.0 == b,
                b.len() <= usize::MAX,
                old(self)@.1 == p0,
                0 <= self@.1 <= b.len(),
                field_step(b, p0, key@) == members_step(b, self@.1, key@),
                field_step(b, p0, key@).0 <= usize::MAX,
            decreases b.len() - self@.1,
        {
            let ghost p = self@.1;
            proof {
                lemma_ws_end(b, p);
            }
            // key
            match self.skip_whitespace() {
                Some(c) => if c != QUOTE {
                    return Err(Error::invalid_json());
                },
                None => return Err(Error::invalid_json()),
            }
            let start = self.pos();
            proof {
                lemma_string_step(b, start + 1);
            }
            match self.skip_string() {
                Ok(()) => {},
                Err(e) => return Err(e),
            }
            let field = self.slice(start);  // quotes included
            let is_match = bytes_equal(&field[1..field.len() - 1], key);
            proof {
                assert(field@.subrange(1, field@.len() - 1) =~= b.subrange(start + 1, self@.1 - 1));
                lemma_ws_end(b, self@.1);
            }
            // `:`
            self.skip_whitespace();
            if !self.eat(COLON) {
                return Err(Error::invalid_json());
            }
            // move to the value
            proof {
                lemma_ws_end(b, self@.1);
            }
            self.skip_whitespace();
            if is_match {
                return Ok(());
            }
            // not this key; try the next one
            proof {
                lemma_value_step(b, self@.1);
            }
            match self.skip_value() {
                Ok(()) => {},
                Err(e) => return Err(e),
            }
            proof {
                lemma_ws_end(b, self@.1);
            }
            // `,` or `}`
            match self.skip_whitespace() {
                Some(c) => if c == COMMA {
                    self.advance();
                } else if c == RBRACE {
                    return Err(Error::not_found());
                } else {
                    return Err(Error::invalid_json());
                },
                None => return Err(Error::invalid_json()),
            }
        }
    }
}

/// One of the bytes a bare value stops at.
fn delimiter_or_ws(b: u8) -> (r: bool)
    ensures
        r == (is_delimiter(b) || is_json_ws(b)),
{
    b == COMMA || b == RBRACKET || b == RBRACE || json_ws(b)
}

/// Where a key search stops after at least one key: right after an ASCII
/// byte (`:` or whitespace), inside the bytes.
pub proof fn lemma_members_step(b: Seq<u8>, p: int, key: Seq<u8>)
    requires
        0 <= p,
    ensures
        members_step(b, p, key).1 is Ok ==> 1 <= members_step(b, p, key).0 <= b.len() && b[members_step(
            b,
            p,
            key,
        ).0 - 1] < 0x80,
    decreases b.len() - p,
{
    let p1 = ws_end(b, p);
    lemma_ws_end(b, p);
    if 0 <= p1 < b.len() && b[p1] == QUOTE {
        lemma_string_step(b, p1 + 1);
        let s = string_step(b, p1 + 1);
        if s.1 is Ok {
            let p3 = ws_end(b, s.0);
            lemma_ws_end(b, s.0);
            if 0 <= p3 < b.len() && b[p3] == COLON {
                lemma_ws_end(b, p3 + 1);
                let p4 = ws_end(b, p3 + 1);
                let v = value_step(b, p4);
                lemma_value_step(b, p4);
                if v.1 is Ok {
                    lemma_ws_end(b, v.0);
                    let p6 = ws_end(b, v.0);
                    if 0 <= p6 < b.len() && b[p6] == COMMA {
                        lemma_members_step(b, p6 + 1, key);
                    }
                }
            }
        }
    }
}

pub proof fn lemma_keys_step(b: Seq<u8>, p: int, keys: Seq<Seq<u8>>)
    requires
        0 <= p,
    ensures
        keys_step(b, p, keys).1 is Ok && keys.len() > 0 ==> 1 <= keys_step(b, p, keys).0 <= b.len()
            && b[keys_step(b, p, keys).0 - 1] < 0x80,
        keys_step(b, p, keys).0 >= 0,
    decreases keys.len(),
{
    if keys.len() > 0 && 0 <= p < b.len() && b[p] == LBRACE {
        lemma_ws_end(b, p + 1);
        lemma_members_step(b, ws_end(b, p + 1), keys[0]);
        lemma_members_step_moves(b, ws_end(b, p + 1), keys[0]);
        let s = field_step(b, p, keys[0]);
        if s.1 is Ok {
            lemma_keys_step(b, s.0, keys.drop_first());
        }
    }
}

pub proof fn lemma_members_step_moves(b: Seq<u8>, p: int, key: Seq<u8>)
    requires
        0 <= p,
    ensures
        members_step(b, p, key).0 >= 0,
    decreases b.len() - p,
{
    let p1 = ws_end(b, p);
    lemma_ws_end(b, p);
    if 0 <= p1 < b.len() && b[p1] == QUOTE {
        lemma_string_step(b, p1 + 1);
        let s = string_step(b, p1 + 1);
        if s.1 is Ok {
            let p3 = ws_end(b, s.0);
            lemma_ws_end(b, s.0);
            if 0 <= p3 < b.len() && b[p3] == COLON {
                lemma_ws_end(b, p3 + 1);
                let p4 = ws_end(b, p3 + 1);
                lemma_value_step(b, p4);
                let v = value_step(b, p4);
                if v.1 is Ok {
                    lemma_ws_end(b, v.0);
                    let p6 = ws_end(b, v.0);
                    if 0 <= p6 < b.len() && b[p6] == COMMA {
                        lemma_members_step_moves(b, p6 + 1, key);
                    }
                }
            }
        }
    }
}

/// Going down the keys `a + c` is going down `a`, then `c` from where `a` ends.
pub proof fn lemma_keys_step_concat(b: Seq<u8>, p: int, a: Seq<Seq<u8>>, c: Seq<Seq<u8>>)
    ensures
        keys_step(b, p, a + c) == if keys_step(b, p, a).1 is Ok {
            keys_step(b, keys_step(b, p, a).0, c)
        } else {
            keys_step(b, p, a)
        },
    decreases a.len(),
{
    if a.len() == 0 {
        assert(a + c =~= c);
    } else {
        assert((a + c)[0] == a[0]);
        assert((a + c).drop_first() =~= a.drop_first() + c);
        if 0 <= p < b.len() && b[p] == LBRACE {
            let s = field_step(b, p, a[0]);
            if s.1 is Ok {
                lemma_keys_step_concat(b, s.0, a.drop_first(), c);
            }
        }
    }
}

/// A value `Cursor::find` reports is one as the search finds it: not empty,
/// after an ASCII byte, followed by an ASCII byte, a string keeping its quotes.
pub proof fn lemma_find_step(b: Seq<u8>, p: int, pattern: Seq<u8>)
    requires
        0 <= p,
    ensures
        find_step(b, p, pattern).1 matches Ok((s, e)) ==> found_ok(b, s, e) && e < b.len(),
{
    let keys = split_dot(pattern);
    lemma_split_dot_nonempty(pattern);
    lemma_keys_step(b, p, keys);
    let k = keys_step(b, p, keys);
    if k.1 is Ok {
        lemma_value_step(b, k.0);
        let v = value_step(b, k.0);
        if v.1 is Ok {
            lemma_ws_end(b, v.0);
        }
    }
}

pub(crate) proof fn lemma_string_step_agrees(b: Seq<u8>, j: int)
    requires
        0 <= j <= b.len(),
    ensures
        match string_body_end(b.skip(j)) {
            Some(q) => string_step(b, j) == (j + q + 1, Ok::<(), Kind>(())),
            None => string_step(b, j).1 == Err::<(), Kind>(Kind::UnterminatedString),
        },
    decreases b.len() - j,
{
    let s = b.skip(j);
    if j < b.len() {
        assert(s[0] == b[j]);
        if b[j] != QUOTE {
            if b[j] == BACKSLASH {
                if b.len() - j > 2 {
                    assert(s.skip(2) =~= b.skip(j + 2));
                    lemma_string_step_agrees(b, j + 2);
                } else {
                    assert(string_step(b, j + 2).1 is Err);
                }
            } else {
                assert(s.skip(1) =~= b.skip(j + 1));
                lemma_string_step_agrees(b, j + 1);
            }
        }
    }
}

proof fn lemma_array_step_agrees(b: Seq<u8>, q: int, depth: nat)
    requires
        0 <= q <= b.len(),
    ensures
        match array_rest(b.skip(q), depth) {
            Ok(n) => array_step(b, q, depth) == (q + n, Ok::<(), Kind>(())),
            Err(k) => array_step(b, q, depth).1 == Err::<(), Kind>(k),
        },
    decreases b.len() - q,
{
    let s = b.skip(q);
    if depth > 0 && q < b.len() {
        assert(s[0] == b[q]);
        if b[q] == QUOTE {
            assert(s.skip(1) =~= b.skip(q + 1));
            lemma_string_step_agrees(b, q + 1);
            lemma_string_scan(s);
            if let Ok(n) = string_scan(s) {
                assert(s.skip(n) =~= b.skip(q + n));
                lemma_array_step_agrees(b, q + n, depth);
            }
        } else {
            let d: nat = if b[q] == LBRACKET {
                depth + 1
            } else if b[q] == RBRACKET {
                (depth - 1) as nat
            } else {
                depth
            };
            assert(s.skip(1) =~= b.skip(q + 1));
            lemma_array_step_agrees(b, q + 1, d);
        }
    }
}

proof fn lemma_object_step_agrees(b: Seq<u8>, q: int, depth: nat)
    requires
        0 <= q <= b.len(),
    ensures
        match object_rest(b.skip(q), depth) {
            Ok(n) => object_step(b, q, depth) == (q + n, Ok::<(), Kind>(())),
            Err(k) => object_step(b, q, depth).1 == Err::<(), Kind>(k),
        },
    decreases b.len() - q,
{
    let s = b.skip(q);
    if depth > 0 && q < b.len() {
        assert(s[0] == b[q]);
        if b[q] == QUOTE {
            assert(s.skip(1) =~= b.skip(q + 1));
            lemma_string_step_agrees(b, q + 1);
            lemma_string_scan(s);
            if let Ok(n) = string_scan(s) {
                assert(s.skip(n) =~= b.skip(q + n));
                lemma_object_step_agrees(b, q + n, depth);
            }
        } else if b[q] == LBRACKET {
            assert(s.skip(1) =~= b.skip(q + 1));
            lemma_array_step_agrees(b, q + 1, 1);
            lemma_array_scan(s);
            if let Ok(n) = array_scan(s) {
                assert(s.skip(n) =~= b.skip(q + n));
                lemma_object_step_agrees(b, q + n, depth);
            }
        } else {
            let d: nat = if b[q] == LBRACE {
                depth + 1
            } else if b[q] == RBRACE {
                (depth - 1) as nat
            } else {
                depth
            };
            assert(s.skip(1) =~= b.skip(q + 1));
            lemma_object_step_agrees(b, q + 1, d);
        }
    }
}

/// The cursor steps over a string, an array or an object at `p` exactly as
/// the scanners measure the token at `p`: to its end, or with the same kind
/// of error.
pub proof fn cursor_skips_agree_with_scanners(b: Seq<u8>, p: int)
    requires
        0 <= p < b.len(),
    ensures
        b[p] == QUOTE ==> match string_scan(b.skip(p)) {
            Ok(n) => value_step(b, p) == (p + n, Ok::<(), Kind>(())),
            Err(k) => value_step(b, p).1 == Err::<(), Kind>(k),
        },
        b[p] == LBRACKET ==> match array_scan(b.skip(p)) {
            Ok(n) => value_step(b, p) == (p + n, Ok::<(), Kind>(())),
            Err(k) => value_step(b, p).1 == Err::<(), Kind>(k),
        },
        b[p] == LBRACE ==> match object_scan(b.skip(p)) {
            Ok(n) => value_step(b, p) == (p + n, Ok::<(), Kind>(())),
            Err(k) => value_step(b, p).1 == Err::<(), Kind>(k),
        },
{
    let s = b.skip(p);
    assert(s[0] == b[p]);
    assert(s.skip(1) =~= b.skip(p + 1));
    lemma_string_step_agrees(b, p + 1);
    lemma_array_step_agrees(b, p + 1, 1);
    lemma_object_step_agrees(b, p + 1, 1);
}

pub proof fn lemma_ws_end(b: Seq<u8>, p: int)
    requires
        0 <= p,
    ensures
        p <= ws_end(b, p),
        ws_end(b, p) > p ==> ws_end(b, p) <= b.len(),
        forall|j: int| p <= j < ws_end(b, p) ==> is_json_ws(#[trigger] b[j]),
        0 <= ws_end(b, p) < b.len() ==> !is_json_ws(b[ws_end(b, p)]),
    decreases b.len() - p,
{
    if 0 <= p < b.len() && is_json_ws(b[p]) {
        lemma_ws_end(b, p + 1);
    }
}

pub proof fn lemma_string_step(b: Seq<u8>, q: int)
    requires
        0 <= q,
    ensures
        q <= string_step(b, q).0,
        string_step(b, q).1 is Ok ==> q < string_step(b, q).0 <= b.len() && b[string_step(b, q).0
            - 1] == QUOTE,
    decreases b.len() + 2 - q,
{
    if q < b.len() && b[q] != QUOTE {
        if b[q] == BACKSLASH {
            lemma_string_step(b, q + 2);
        } else {
            lemma_string_step(b, q + 1);
        }
    }
}

pub proof fn lemma_array_step(b: Seq<u8>, q: int, depth: nat)
    requires
        0 <= q,
    ensures
        q <= array_step(b, q, depth).0,
        array_step(b, q, depth).1 is Ok ==> array_step(b, q, depth).0 <= b.len() || depth == 0,
        array_step(b, q, depth).1 is Ok && depth > 0 ==> q < array_step(b, q, depth).0 && b[array_step(
            b,
            q,
            depth,
        ).0 - 1] == RBRACKET,
    decreases b.len() - q,
{
    if depth > 0 && q < b.len() {
        if b[q] == QUOTE {
            lemma_string_step(b, q + 1);
            let s = string_step(b, q + 1);
            if s.1 is Ok {
                lemma_array_step(b, s.0, depth);
            }
        } else if b[q] == LBRACKET {
            lemma_array_step(b, q + 1, depth + 1);
        } else if b[q] == RBRACKET {
            lemma_array_step(b, q + 1, (depth - 1) as nat);
        } else {
            lemma_array_step(b, q + 1, depth);
        }
    }
}

pub proof fn lemma_object_step(b: Seq<u8>, q: int, depth: nat)
    requires
        0 <= q,
    ensures
        q <= object_step(b, q, depth).0,
        object_step(b, q, depth).1 is Ok ==> object_step(b, q, depth).0 <= b.len() || depth == 0,
        object_step(b, q, depth).1 is Ok && depth > 0 ==> q < object_step(b, q, depth).0 && b[object_step(
            b,
            q,
            depth,
        ).0 - 1] == RBRACE,
    decreases b.len() - q,
{
    if depth > 0 && q < b.len() {
        if b[q] == QUOTE {
            lemma_string_step(b, q + 1);
            let s = string_step(b, q + 1);
            if s.1 is Ok {
                lemma_object_step(b, s.0, depth);
            }
        } else if b[q] == LBRACKET {
            lemma_array_step(b, q + 1, 1);
            let s = array_step(b, q + 1, 1);
            if s.1 is Ok {
                lemma_object_step(b, s.0, depth);
            }
        } else if b[q] == LBRACE {
            lemma_object_step(b, q + 1, depth + 1);
        } else if b[q] == RBRACE {
            lemma_object_step(b, q + 1, (depth - 1) as nat);
        } else {
            lemma_object_step(b, q + 1, depth);
        }
    }
}

/// A value step moves the cursor forward; a successful one stays inside the
/// bytes, takes at least one, and a string keeps its closing quote last.
pub proof fn lemma_value_step(b: Seq<u8>, p: int)
    requires
        0 <= p,
    ensures
        p <= value_step(b, p).0,
        value_step(b, p).1 is Ok ==> {
            &&& p < value_step(b, p).0 <= b.len()
            &&& b[p] == QUOTE ==> p + 2 <= value_step(b, p).0 && b[value_step(b, p).0 - 1] == QUOTE
            &&& value_step(b, p).0 == b.len() || b[value_step(b, p).0 - 1] < 0x80 || b[value_step(b, p).0] < 0x80
        },
{
    if 0 <= p < b.len() {
        lemma_string_step(b, p + 1);
        lemma_object_step(b, p + 1, 1);
        lemma_array_step(b, p + 1, 1);
        lemma_token_len(b.skip(p));
        let t = token_len(b.skip(p));
        if t > 0 && p + t < b.len() {
            assert(b.skip(p)[t] == b[p + t]);
        }
        if b[p] == 0x74 || b[p] == 0x66 || b[p] == 0x6e {
            let w = if b[p] == 0x74 {
                true_bytes()
            } else if b[p] == 0x66 {
                false_bytes()
            } else {
                null_bytes()
            };
            if p + w.len() <= b.len() && b.subrange(p, p + w.len()) == w {
                assert(b[p + w.len() - 1] == b.subrange(p, p + w.len())[w.len() - 1]);
            }
        }
    }
}

proof fn lemma_string_step_end(b: Seq<u8>, q: int)
    requires
        0 <= q <= b.len() + 1,
    ensures
        string_step(b, q).0 <= b.len() + 1,
    decreases b.len() + 2 - q,
{
    if q < b.len() && b[q] != QUOTE {
        if b[q] == BACKSLASH {
            lemma_string_step_end(b, q + 2);
        } else {
            lemma_string_step_end(b, q + 1);
        }
    }
}

proof fn lemma_array_step_end(b: Seq<u8>, q: int, depth: nat)
    requires
        0 <= q <= b.len(),
    ensures
        array_step(b, q, depth).0 <= b.len() + 1,
    decreases b.len() - q,
{
    if depth > 0 && q < b.len() {
        if b[q] == QUOTE {
            lemma_string_step_end(b, q + 1);
            lemma_string_step(b, q + 1);
            let s = string_step(b, q + 1);
            if s.1 is Ok {
                lemma_array_step_end(b, s.0, depth);
            }
        } else if b[q] == LBRACKET {
            lemma_array_step_end(b, q + 1, depth + 1);
        } else if b[q] == RBRACKET {
            lemma_array_step_end(b, q + 1, (depth - 1) as nat);
        } else {
            lemma_array_step_end(b, q + 1, depth);
        }
    }
}

proof fn lemma_object_step_end(b: Seq<u8>, q: int, depth: nat)
    requires
        0 <= q <= b.len(),
    ensures
        object_step(b, q, depth).0 <= b.len() + 1,
    decreases b.len() - q,
{
    if depth > 0 && q < b.len() {
        if b[q] == QUOTE {
            lemma_string_step_end(b, q + 1);
            lemma_string_step(b, q + 1);
            let s = string_step(b, q + 1);
            if s.1 is Ok {
                lemma_object_step_end(b, s.0, depth);
            }
        } else if b[q] == LBRACKET {
            lemma_array_step_end(b, q + 1, 1);
            lemma_array_step(b, q + 1, 1);
            let s = array_step(b, q + 1, 1);
            if s.1 is Ok {
                lemma_object_step_end(b, s.0, depth);
            }
        } else if b[q] == LBRACE {
            lemma_object_step_end(b, q + 1, depth + 1);
        } else if b[q] == RBRACE {
            lemma_object_step_end(b, q + 1, (depth - 1) as nat);
        } else {
            lemma_object_step_end(b, q + 1, depth);
        }
    }
}

proof fn lemma_value_step_end(b: Seq<u8>, p: int)
    requires
        0 <= p <= b.len(),
    ensures
        value_step(b, p).0 <= b.len() + 1,
{
    if p < b.len() {
        lemma_string_step_end(b, p + 1);
        lemma_object_step_end(b, p + 1, 1);
        lemma_array_step_end(b, p + 1, 1);
        lemma_token_len(b.skip(p));
    }
}

proof fn lemma_members_step_end(b: Seq<u8>, p: int, key: Seq<u8>)
    requires
        0 <= p <= b.len(),
    ensures
        members_step(b, p, key).0 <= b.len() + 1,
    decreases b.len() - p,
{
    let p1 = ws_end(b, p);
    lemma_ws_end(b, p);
    if 0 <= p1 < b.len() && b[p1] == QUOTE {
        lemma_string_step_end(b, p1 + 1);
        lemma_string_step(b, p1 + 1);
        let s = string_step(b, p1 + 1);
        if s.1 is Ok {
            let p3 = ws_end(b, s.0);
            lemma_ws_end(b, s.0);
            if 0 <= p3 < b.len() && b[p3] == COLON {
                lemma_ws_end(b, p3 + 1);
                let p4 = ws_end(b, p3 + 1);
                lemma_value_step_end(b, p4);
                lemma_value_step(b, p4);
                let v = value_step(b, p4);
                if v.1 is Ok {
                    lemma_ws_end(b, v.0);
                    let p6 = ws_end(b, v.0);
                    if 0 <= p6 < b.len() && b[p6] == COMMA {
                        lemma_members_step_end(b, p6 + 1, key);
                    }
                }
            }
        }
    }
}

proof fn lemma_keys_step_end(b: Seq<u8>, p: int, keys: Seq<Seq<u8>>)
    requires
        0 <= p <= b.len(),
    ensures
        keys_step(b, p, keys).0 <= b.len() + 1,
    decreases keys.len(),
{
    if keys.len() > 0 && p < b.len() && b[p] == LBRACE {
        lemma_ws_end(b, p + 1);
        lemma_members_step_end(b, ws_end(b, p + 1), keys[0]);
        lemma_members_step(b, ws_end(b, p + 1), keys[0]);
        let s = field_step(b, p, keys[0]);
        if s.1 is Ok {
            lemma_keys_step_end(b, s.0, keys.drop_first());
        }
    }
}

/// Started anywhere inside the bytes, a step over a value and a search for
/// a dotted path stop at most one byte past the end: a backslash at the last
/// byte of an unterminated string takes the byte after it along.
pub proof fn cursor_stops_by_the_end(b: Seq<u8>, p: int, pattern: Seq<u8>)
    requires
        0 <= p <= b.len(),
    ensures
        value_step(b, p).0 <= b.len() + 1,
        find_step(b, p, pattern).0 <= b.len() + 1,
{
    lemma_value_step_end(b, p);
    let keys = split_dot(pattern);
    lemma_keys_step_end(b, p, keys);
    lemma_keys_step(b, p, keys);
    lemma_split_dot_nonempty(pattern);
    let k = keys_step(b, p, keys);
    if k.1 is Ok {
        lemma_value_step_end(b, k.0);
        lemma_value_step(b, k.0);
        let v = value_step(b, k.0);
        if v.1 is Ok {
            lemma_ws_end(b, v.0);
        }
    }
}

/// The cursor passes over exactly the four JSON whitespace bytes: space,
/// tab, line feed and carriage return, and stops at the first other byte.
pub proof fn cursor_whitespace_is_the_json_four(b: Seq<u8>, p: int)
    requires
        0 <= p <= b.len(),
    ensures
        p <= ws_end(b, p) <= b.len(),
        forall|j: int|
            p <= j < ws_end(b, p) ==> {
                let c = #[trigger] b[j];
                c == 0x20 || c == 0x09 || c == 0x0a || c == 0x0d
            },
        ws_end(b, p) < b.len() ==> {
            let c = b[ws_end(b, p)];
            !(c == 0x20 || c == 0x09 || c == 0x0a || c == 0x0d)
        },
{
    lemma_ws_end(b, p);
}

/// The cursor steps over a string literal at `p` to just past its closing
/// quote, whatever follows it.
pub proof fn cursor_steps_over_a_literal(b: Seq<u8>, p: int, body: Seq<u8>, rest: Seq<u8>)
    requires
        0 <= p,
        is_string_body(body),
        b.skip(p) == seq![0x22u8] + body + seq![0x22u8] + rest,
        p <= b.len(),
    ensures
        value_step(b, p) == (p + body.len() + 2, Ok::<(), Kind>(())),
{
    string_scan_measures_a_literal(body, rest);
    assert(b.skip(p)[0] == b[p]);
    cursor_skips_agree_with_scanners(b, p);
}

/// A path step that reaches an array is not supported, whatever the array
/// holds; so is a search that starts at one.
pub proof fn cursor_refuses_arrays(b: Seq<u8>, p: int, keys: Seq<Seq<u8>>, pattern: Seq<u8>)
    requires
        0 <= p < b.len(),
        b[p] == 0x5bu8,
    ensures
        keys.len() > 0 ==> keys_step(b, p, keys) == (p, Err::<(), Kind>(Kind::UnsupportedArray)),
        find_step(b, p, pattern) == (p, Err::<(int, int), Kind>(Kind::UnsupportedArray)),
{
    lemma_split_dot_nonempty(pattern);
}

/// When the first key leads to an array and more keys follow, the search
/// stops at the array as not supported.
pub proof fn cursor_refuses_arrays_on_the_way(b: Seq<u8>, p: int, keys: Seq<Seq<u8>>)
    requires
        0 <= p < b.len(),
        b[p] == 0x7bu8,
        keys.len() >= 2,
        field_step(b, p, keys[0]) matches (s, Ok(_)) && 0 <= s < b.len() && b[s] == 0x5bu8,
    ensures
        keys_step(b, p, keys) == (field_step(b, p, keys[0]).0, Err::<(), Kind>(
            Kind::UnsupportedArray,
        )),
{
    let s = field_step(b, p, keys[0]).0;
    assert(keys_step(b, s, keys.drop_first()) == (s, Err::<(), Kind>(Kind::UnsupportedArray)));
}

} // verus!
