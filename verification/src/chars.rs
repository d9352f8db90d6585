//! Byte values the scanners look at, and the classes of bytes they treat alike.
use vstd::prelude::*;

verus! {

pub const QUOTE: u8 = 0x22;

pub const BACKSLASH: u8 = 0x5c;

pub const LBRACE: u8 = 0x7b;

pub const RBRACE: u8 = 0x7d;

pub const LBRACKET: u8 = 0x5b;

pub const RBRACKET: u8 = 0x5d;

pub const COMMA: u8 = 0x2c;

pub const COLON: u8 = 0x3a;

pub const DOT: u8 = 0x2e;

pub const SPACE: u8 = 0x20;

pub const TAB: u8 = 0x09;

pub const LINE_FEED: u8 = 0x0a;

pub const FORM_FEED: u8 = 0x0c;

pub const CARRIAGE_RETURN: u8 = 0x0d;

/// The four whitespace bytes of JSON: space, line feed, carriage return, tab.
pub open spec fn is_json_ws(b: u8) -> bool {
    b == SPACE || b == LINE_FEED || b == CARRIAGE_RETURN || b == TAB
}

/// ASCII whitespace as `u8::is_ascii_whitespace` has it: the JSON four and form feed.
pub open spec fn is_ascii_ws(b: u8) -> bool {
    is_json_ws(b) || b == FORM_FEED
}

/// The bytes that end a bare value: `,`, `]` and `}`.
pub open spec fn is_delimiter(b: u8) -> bool {
    b == COMMA || b == RBRACKET || b == RBRACE
}

pub fn json_ws(b: u8) -> (r: bool)
    ensures
        r == is_json_ws(b),
{
    b == SPACE || b == LINE_FEED || b == CARRIAGE_RETURN || b == TAB
}

pub fn ascii_ws(b: u8) -> (r: bool)
    ensures
        r == is_ascii_ws(b),
{
    b == SPACE || b == LINE_FEED || b == CARRIAGE_RETURN || b == TAB || b == FORM_FEED
}

pub fn delimiter(b: u8) -> (r: bool)
    ensures
        r == is_delimiter(b),
{
    b == COMMA || b == RBRACKET || b == RBRACE
}

/// Compares two byte slices element by element.
pub fn bytes_equal(a: &[u8], b: &[u8]) -> (r: bool)
    ensures
        r == (a@ == b@),
{
    if a.len() != b.len() {
        return false;
    }
    let mut i: usize = 0;
    while i < a.len()
        invariant
            a@.len() == b@.len(),
            i <= a@.len(),
            forall|j: int| 0 <= j < i ==> a@[j] == b@[j],
        decreases a@.len() - i,
    {
        if a[i] != b[i] {
            return false;
        }
        i = i + 1;
    }
    assert(a@ =~= b@);
    true
}

} // verus!
