//! Lines of a byte sequence: records that end with a line feed, the last of
//! which may lack one.

use vstd::prelude::*;
use vstd::utf8::valid_utf8;

verus! {

/// The line feed byte, which ends a line.
pub const LINE_FEED: u8 = 0x0A;

/// The carriage return byte, which is dropped when it stands before a line feed.
pub const CARRIAGE_RETURN: u8 = 0x0D;

/// The index of the first line feed in `s`, or the length of `s` if it holds none.
pub open spec fn first_newline(s: Seq<u8>) -> nat
    decreases s.len(),
{
    if s.len() == 0 || s[0] == LINE_FEED {
        0
    } else {
        1 + first_newline(s.skip(1))
    }
}

/// `line` without one trailing carriage return, if it has one.
pub open spec fn strip_cr(line: Seq<u8>) -> Seq<u8> {
    if line.len() > 0 && line.last() == CARRIAGE_RETURN {
        line.drop_last()
    } else {
        line
    }
}

/// The lines of `s`, without their terminators. A line runs up to the next
/// line feed; a carriage return just before that line feed is not part of the
/// line. Bytes behind the last line feed form a last line of their own.
pub open spec fn lines_of(s: Seq<u8>) -> Seq<Seq<u8>>
    decreases s.len(),
{
    if s.len() == 0 {
        Seq::empty()
    } else {
        let k = first_newline(s) as int;
        if k >= s.len() {
            seq![s]
        } else {
            seq![strip_cr(s.take(k))] + lines_of(s.skip(k + 1))
        }
    }
}

/// The bytes written for `lines`: each line followed by a line feed.
pub open spec fn render_lines(lines: Seq<Seq<u8>>) -> Seq<u8>
    decreases lines.len(),
{
    if lines.len() == 0 {
        Seq::empty()
    } else {
        render_lines(lines.drop_last()) + lines.last() + seq![LINE_FEED]
    }
}

/// `first_newline` lies within `s`, no line feed stands before it, and one
/// stands at it unless it is the length of `s`.
pub proof fn lemma_first_newline(s: Seq<u8>)
    ensures
        first_newline(s) <= s.len(),
        forall|i: int| 0 <= i < first_newline(s) ==> #[trigger] s[i] != LINE_FEED,
        first_newline(s) < s.len() ==> s[first_newline(s) as int] == LINE_FEED,
    decreases s.len(),
{
    if !(s.len() == 0 || s[0] == LINE_FEED) {
        let tail = s.skip(1);
        lemma_first_newline(tail);
        assert forall|i: int| 0 <= i < first_newline(s) implies #[trigger] s[i] != LINE_FEED by {
            if i > 0 {
                assert(s[i] == tail[i - 1]);
            }
        }
        if first_newline(s) < s.len() {
            assert(s[first_newline(s) as int] == tail[first_newline(tail) as int]);
        }
    }
}

/// A position with no line feed before it, and with a line feed at it unless
/// it is the length of `s`, is `first_newline`.
pub proof fn lemma_first_newline_unique(s: Seq<u8>, k: int)
    requires
        0 <= k <= s.len(),
        forall|i: int| 0 <= i < k ==> #[trigger] s[i] != LINE_FEED,
        k < s.len() ==> s[k] == LINE_FEED,
    ensures
        first_newline(s) == k,
    decreases s.len(),
{
    if s.len() == 0 {
    } else if s[0] == LINE_FEED {
        if k > 0 {
            assert(s[0] != LINE_FEED);
        }
    } else {
        let tail = s.skip(1);
        assert forall|i: int| 0 <= i < k - 1 implies #[trigger] tail[i] != LINE_FEED by {
            assert(tail[i] == s[i + 1]);
        }
        lemma_first_newline_unique(tail, k - 1);
    }
}

/// No line of `lines_of` holds a line feed.
pub proof fn lemma_lines_hold_no_newline(s: Seq<u8>, i: int)
    requires
        0 <= i < lines_of(s).len(),
    ensures
        forall|j: int| 0 <= j < lines_of(s)[i].len() ==> #[trigger] lines_of(s)[i][j] != LINE_FEED,
    decreases s.len(),
{
    lemma_first_newline(s);
    let k = first_newline(s) as int;
    if s.len() == 0 {
    } else if k >= s.len() {
    } else {
        let head = strip_cr(s.take(k));
        let rest = lines_of(s.skip(k + 1));
        if i == 0 {
            assert(lines_of(s)[0] == head);
            assert forall|j: int| 0 <= j < head.len() implies #[trigger] head[j] != LINE_FEED by {
                assert(head[j] == s[j]);
            }
        } else {
            assert(lines_of(s)[i] == rest[i - 1]);
            lemma_lines_hold_no_newline(s.skip(k + 1), i - 1);
        }
    }
}

/// Every line consumes at least one byte: there are no more lines than bytes.
pub proof fn lemma_lines_of_len(s: Seq<u8>)
    ensures
        lines_of(s).len() <= s.len(),
    decreases s.len(),
{
    lemma_first_newline(s);
    let k = first_newline(s) as int;
    if s.len() > 0 && k < s.len() {
        lemma_lines_of_len(s.skip(k + 1));
    }
}

/// Behind a sequence that is empty or ends with a line feed, the lines of what
/// follows are counted on their own.
pub proof fn lemma_lines_of_concat(a: Seq<u8>, b: Seq<u8>)
    requires
        a.len() == 0 || a.last() == LINE_FEED,
    ensures
        lines_of(a + b) == lines_of(a) + lines_of(b),
    decreases a.len(),
{
    if a.len() == 0 {
        assert(a + b =~= b);
        assert(lines_of(a) + lines_of(b) =~= lines_of(b));
    } else {
        lemma_first_newline(a);
        let k = first_newline(a) as int;
        assert(k < a.len()) by {
            if k >= a.len() {
                assert(a[a.len() - 1] != LINE_FEED);
            }
        }
        let whole = a + b;
        assert forall|i: int| 0 <= i < k implies #[trigger] whole[i] != LINE_FEED by {
            assert(whole[i] == a[i]);
        }
        assert(whole[k] == a[k]);
        lemma_first_newline_unique(whole, k);
        assert(whole.take(k) =~= a.take(k));
        assert(whole.skip(k + 1) =~= a.skip(k + 1) + b);
        let tail = a.skip(k + 1);
        if tail.len() > 0 {
            assert(tail.last() == a.last());
        }
        lemma_lines_of_concat(tail, b);
        assert(lines_of(whole) =~= lines_of(a) + lines_of(b));
    }
}

/// Lines that hold no line feed are as many as the lines of their rendering.
pub proof fn lemma_render_lines_count(lines: Seq<Seq<u8>>)
    requires
        forall|i: int, j: int|
            0 <= i < lines.len() && 0 <= j < lines[i].len() ==> #[trigger] lines[i][j] != LINE_FEED,
    ensures
        lines_of(render_lines(lines)).len() == lines.len(),
    decreases lines.len(),
{
    if lines.len() > 0 {
        let front = lines.drop_last();
        let line = lines.last();
        assert forall|i: int, j: int| 0 <= i < front.len() && 0 <= j < front[i].len() implies #[trigger] front[i][j]
            != LINE_FEED by {
            assert(front[i][j] == lines[i][j]);
        }
        lemma_render_lines_count(front);
        let written = render_lines(front);
        let record = line + seq![LINE_FEED];
        if front.len() > 0 {
            assert(written.last() == LINE_FEED);
        }
        lemma_lines_of_concat(written, record);
        assert(render_lines(lines) =~= written + record);
        assert forall|j: int| 0 <= j < line.len() implies #[trigger] record[j] != LINE_FEED by {
            assert(record[j] == lines[lines.len() - 1][j]);
        }
        lemma_first_newline_unique(record, line.len() as int);
        assert(record.skip(line.len() as int + 1) =~= Seq::<u8>::empty());
        assert(lines_of(Seq::<u8>::empty()).len() == 0);
        assert(lines_of(record).len() == 1);
    }
}

/// Lines written one group behind the other are the bytes of both groups.
pub proof fn lemma_render_lines_concat(a: Seq<Seq<u8>>, b: Seq<Seq<u8>>)
    ensures
        render_lines(a + b) == render_lines(a) + render_lines(b),
    decreases b.len(),
{
    if b.len() == 0 {
        assert(a + b =~= a);
        assert(render_lines(a) + render_lines(b) =~= render_lines(a));
    } else {
        lemma_render_lines_concat(a, b.drop_last());
        assert((a + b).drop_last() =~= a + b.drop_last());
        assert((a + b).last() == b.last());
        assert(render_lines(a + b) =~= render_lines(a) + render_lines(b));
    }
}

/// Finds the line that starts at `pos`. Returns the position where the line's
/// content ends and the position where the next line starts.
pub fn scan_line(source: &[u8], pos: usize) -> (r: (usize, usize))
    requires
        pos < source@.len(),
    ensures
        pos <= r.0 <= r.1 <= source@.len(),
        pos < r.1,
        lines_of(source@.skip(pos as int)) == seq![source@.subrange(pos as int, r.0 as int)] + lines_of(
            source@.skip(r.1 as int),
        ),
{
    let ghost rest = source@.skip(pos as int);
    let mut end: usize = pos;
    while end < source.len() && source[end] != LINE_FEED
        invariant
            pos <= end <= source@.len(),
            forall|i: int| pos <= i < end ==> #[trigger] source@[i] != LINE_FEED,
        decreases source@.len() - end,
    {
        end += 1;
    }
    proof {
        assert forall|i: int| 0 <= i < end - pos implies #[trigger] rest[i] != LINE_FEED by {
            assert(rest[i] == source@[pos + i]);
        }
        lemma_first_newline_unique(rest, end - pos);
    }
    if end == source.len() {
        proof {
            assert(source@.subrange(pos as int, end as int) =~= rest);
            assert(source@.skip(end as int) =~= Seq::<u8>::empty());
            assert(seq![rest] + Seq::<Seq<u8>>::empty() =~= seq![rest]);
        }
        (end, end)
    } else {
        let stop = if end > pos && source[end - 1] == CARRIAGE_RETURN {
            end - 1
        } else {
            end
        };
        proof {
            assert(rest.take(end - pos) =~= source@.subrange(pos as int, end as int));
            assert(source@.subrange(pos as int, stop as int) =~= strip_cr(rest.take(end - pos)));
            assert(rest.skip(end - pos + 1) =~= source@.skip(end + 1));
        }
        (stop, end + 1)
    }
}

/// Counts the lines of `content`.
pub fn count_lines(content: &[u8]) -> (n: usize)
    ensures
        n == lines_of(content@).len(),
{
    let mut pos: usize = 0;
    let mut n: usize = 0;
    proof {
        assert(content@.skip(0) =~= content@);
    }
    while pos < content.len()
        invariant
            n <= pos <= content@.len(),
            lines_of(content@).len() == n + lines_of(content@.skip(pos as int)).len(),
        decreases content@.len() - pos,
    {
        let (_, next) = scan_line(content, pos);
        n += 1;
        pos = next;
    }
    n
}

/// Tells whether `bytes` is valid UTF-8 text.
///
/// Trusted: calls `core::str::from_utf8` and reports whether it accepted the
/// bytes. The standard library documents that it accepts exactly the valid
/// UTF-8 sequences, which is what `valid_utf8` describes.
#[verifier::external_body]
pub(crate) fn is_utf8(bytes: &[u8]) -> (ok: bool)
    ensures
        ok == valid_utf8(bytes@),
{
    core::str::from_utf8(bytes).is_ok()
}

} // verus!
