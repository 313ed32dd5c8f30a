//! Byte-level vocabulary: whitespace, and where the last whitespace byte of a
//! sequence lies.

use vstd::prelude::*;

verus! {

/// The ASCII whitespace bytes: space, tab, line feed, form feed, carriage return.
pub open spec fn is_whitespace(b: u8) -> bool {
    b == 0x20 || b == 0x09 || b == 0x0A || b == 0x0C || b == 0x0D
}

/// One past the index of the last whitespace byte of `s`; 0 when `s` holds none.
pub open spec fn last_whitespace_end(s: Seq<u8>) -> nat
    decreases s.len(),
{
    if s.len() == 0 {
        0
    } else if is_whitespace(s.last()) {
        s.len()
    } else {
        last_whitespace_end(s.drop_last())
    }
}

/// `last_whitespace_end` lies within `s`, points just behind a whitespace byte
/// unless it is 0, and no whitespace byte follows it.
pub proof fn lemma_last_whitespace_end(s: Seq<u8>)
    ensures
        last_whitespace_end(s) <= s.len(),
        last_whitespace_end(s) > 0 ==> is_whitespace(s[last_whitespace_end(s) - 1]),
        forall|i: int| last_whitespace_end(s) <= i < s.len() ==> !is_whitespace(#[trigger] s[i]),
    decreases s.len(),
{
    if s.len() > 0 && !is_whitespace(s.last()) {
        let front = s.drop_last();
        lemma_last_whitespace_end(front);
        assert forall|i: int| last_whitespace_end(s) <= i < s.len() implies !is_whitespace(
            #[trigger] s[i],
        ) by {
            if i < front.len() {
                assert(s[i] == front[i]);
            }
        }
    }
}

/// A position behind which no whitespace byte follows, and which is 0 or lies
/// just behind a whitespace byte, is `last_whitespace_end`.
pub proof fn lemma_last_whitespace_end_unique(s: Seq<u8>, cut: int)
    requires
        0 <= cut <= s.len(),
        cut > 0 ==> is_whitespace(s[cut - 1]),
        forall|i: int| cut <= i < s.len() ==> !is_whitespace(#[trigger] s[i]),
    ensures
        last_whitespace_end(s) == cut,
    decreases s.len(),
{
    if s.len() > 0 && !is_whitespace(s.last()) {
        let front = s.drop_last();
        assert forall|i: int| cut <= i < front.len() implies !is_whitespace(#[trigger] front[i]) by {
            assert(front[i] == s[i]);
        }
        lemma_last_whitespace_end_unique(front, cut);
    }
}

/// The last whitespace byte of `a + b` is that of `b` if `b` holds one, and
/// that of `a` otherwise.
pub proof fn lemma_last_whitespace_end_concat(a: Seq<u8>, b: Seq<u8>)
    ensures
        last_whitespace_end(a + b) == if last_whitespace_end(b) > 0 {
            a.len() + last_whitespace_end(b)
        } else {
            last_whitespace_end(a)
        },
{
    lemma_last_whitespace_end(a);
    lemma_last_whitespace_end(b);
    let whole = a + b;
    let cut: int = if last_whitespace_end(b) > 0 {
        (a.len() + last_whitespace_end(b)) as int
    } else {
        last_whitespace_end(a) as int
    };
    assert forall|i: int| cut <= i < whole.len() implies !is_whitespace(#[trigger] whole[i]) by {
        if i < a.len() {
            assert(whole[i] == a[i]);
        } else {
            assert(whole[i] == b[i - a.len()]);
        }
    }
    if cut > 0 {
        if last_whitespace_end(b) > 0 {
            assert(whole[cut - 1] == b[last_whitespace_end(b) - 1]);
        } else {
            assert(whole[cut - 1] == a[cut - 1]);
        }
    }
    lemma_last_whitespace_end_unique(whole, cut);
}

/// Tells whether `b` is an ASCII whitespace byte.
pub fn byte_is_whitespace(b: u8) -> (r: bool)
    ensures
        r == is_whitespace(b),
{
    b == 0x20 || b == 0x09 || b == 0x0A || b == 0x0C || b == 0x0D
}

/// Scans `bytes` backward from its end for the last whitespace byte and
/// returns the position just behind it, or 0 when there is none.
pub fn find_cut(bytes: &[u8]) -> (cut: usize)
    ensures
        cut == last_whitespace_end(bytes@),
{
    let mut i: usize = bytes.len();
    proof {
        assert(bytes@.take(i as int) =~= bytes@);
    }
    while i > 0 && !byte_is_whitespace(bytes[i - 1])
        invariant
            i <= bytes.len(),
            last_whitespace_end(bytes@) == last_whitespace_end(bytes@.take(i as int)),
        decreases i,
    {
        proof {
            assert(bytes@.take(i as int).drop_last() =~= bytes@.take(i - 1));
        }
        i -= 1;
    }
    i
}

} // verus!
