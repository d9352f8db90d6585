//! Character boundaries of UTF-8 text, in terms of the bytes beside them.
use vstd::prelude::*;
use vstd::utf8::{
    is_char_boundary, is_continuation_byte, length_of_first_scalar, pop_first_scalar,
    valid_first_scalar, valid_utf8,
};

verus! {

/// In UTF-8 text, a position is a character boundary exactly when it is the
/// end or the byte there does not continue a character.
pub proof fn lemma_boundary_iff(b: Seq<u8>, i: int)
    requires
        valid_utf8(b),
        0 <= i <= b.len(),
    ensures
        is_char_boundary(b, i) <==> (i == b.len() || !is_continuation_byte(b[i])),
    decreases b.len(),
{
    if b.len() > 0 {
        assert(valid_first_scalar(b) && valid_utf8(pop_first_scalar(b)));
    }
    if i > 0 {
        let l = length_of_first_scalar(b);
        let rest = pop_first_scalar(b);
        assert(1 <= l <= 4 && l <= b.len());
        assert(is_char_boundary(b, i) == is_char_boundary(rest, i - l));
        if i < l {
            assert(is_continuation_byte(b[i]));
            assert(!is_char_boundary(rest, i - l));
        } else {
            lemma_boundary_iff(rest, i - l);
            if i < b.len() {
                assert(rest[i - l] == b[i]);
            }
        }
    }
}

/// In UTF-8 text, the position right after an ASCII byte is a character boundary.
pub proof fn lemma_boundary_after_ascii(b: Seq<u8>, i: int)
    requires
        valid_utf8(b),
        0 < i <= b.len(),
        b[i - 1] < 0x80,
    ensures
        is_char_boundary(b, i),
    decreases b.len(),
{
    assert(valid_first_scalar(b) && valid_utf8(pop_first_scalar(b)));
    let l = length_of_first_scalar(b);
    let rest = pop_first_scalar(b);
    assert(1 <= l <= 4 && l <= b.len());
    assert(is_char_boundary(b, i) == is_char_boundary(rest, i - l));
    if i < l {
        if i > 1 {
            assert(is_continuation_byte(b[i - 1]));
        }
    } else if i == l {
        assert(is_char_boundary(rest, 0));
    } else {
        assert(rest[i - l - 1] == b[i - 1]);
        lemma_boundary_after_ascii(rest, i - l);
    }
}

/// In UTF-8 text, a position with an ASCII byte on either side of it is a
/// character boundary.
pub proof fn lemma_boundary_beside_ascii(b: Seq<u8>, i: int)
    requires
        valid_utf8(b),
        0 <= i <= b.len(),
        i == b.len() || b[i] < 0x80 || (i > 0 && b[i - 1] < 0x80),
    ensures
        is_char_boundary(b, i),
{
    if i > 0 && b[i - 1] < 0x80 {
        lemma_boundary_after_ascii(b, i);
    } else {
        lemma_boundary_iff(b, i);
    }
}

} // verus!
