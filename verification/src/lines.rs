//! The line model of a text buffer held as bytes: how a buffer splits into
//! lines, at which byte offset each line starts, and in which line a given
//! byte offset falls.

use vstd::prelude::*;

verus! {

/// The byte that ends a line.
pub const NEWLINE: u8 = 10;

/// Number of bytes of `t` before its first newline, or all of `t` if it
/// holds none.
pub open spec fn first_line_len(t: Seq<u8>) -> nat
    decreases t.len(),
{
    if t.len() == 0 {
        0
    } else if t[0] == NEWLINE {
        0
    } else {
        1 + first_line_len(t.drop_first())
    }
}

/// The lines of `t`: the segments between newlines, without the newline
/// bytes themselves. A trailing newline does not open a final empty line.
pub open spec fn spec_lines(t: Seq<u8>) -> Seq<Seq<u8>>
    decreases t.len(),
{
    if t.len() == 0 {
        seq![]
    } else {
        let k = first_line_len(t);
        if k >= t.len() {
            seq![t]
        } else {
            seq![t.take(k as int)] + spec_lines(t.skip(k as int + 1))
        }
    }
}

/// The start offsets of the lines that a newline at or after position `i`
/// opens: every `j + 1` with `j >= i`, `t[j]` a newline and `j + 1` still
/// inside `t`.
pub open spec fn newline_starts(t: Seq<u8>, i: int) -> Seq<int>
    decreases t.len() - i,
{
    if i < 0 || i >= t.len() {
        seq![]
    } else if t[i] == NEWLINE && i + 1 < t.len() {
        seq![i + 1] + newline_starts(t, i + 1)
    } else {
        newline_starts(t, i + 1)
    }
}

/// The byte offset at which each line of `t` starts, in line order.
pub open spec fn spec_line_starts(t: Seq<u8>) -> Seq<int> {
    if t.len() == 0 {
        seq![]
    } else {
        seq![0] + newline_starts(t, 0)
    }
}

/// Number of newlines of `t` strictly before position `end`.
pub open spec fn newline_count(t: Seq<u8>, end: int) -> int
    decreases end,
{
    if end <= 0 || end > t.len() {
        0
    } else {
        newline_count(t, end - 1) + if t[end - 1] == NEWLINE { 1int } else { 0int }
    }
}

/// The line in which byte offset `off` of `t` falls; offsets at or past the
/// end of `t` fall in the last line that any byte opens.
pub open spec fn spec_line_of_offset(t: Seq<u8>, off: int) -> int {
    if off <= t.len() {
        newline_count(t, off)
    } else {
        newline_count(t, t.len() as int)
    }
}

/// A sequence of usize offsets, as mathematical integers.
pub open spec fn to_ints(s: Seq<usize>) -> Seq<int> {
    s.map_values(|x: usize| x as int)
}

pub proof fn lemma_first_line_len(t: Seq<u8>)
    ensures
        first_line_len(t) <= t.len(),
        first_line_len(t) < t.len() ==> t[first_line_len(t) as int] == NEWLINE,
        forall|i: int| 0 <= i < first_line_len(t) ==> t[i] != NEWLINE,
    decreases t.len(),
{
    if t.len() == 0 {
    } else if t[0] == NEWLINE {
    } else {
        lemma_first_line_len(t.drop_first());
        let k = first_line_len(t);
        assert forall|i: int| 0 <= i < k implies t[i] != NEWLINE by {
            if i > 0 {
                assert(t.drop_first()[i - 1] == t[i]);
            }
        }
        if k < t.len() {
            assert(t.drop_first()[k - 1] == t[k as int]);
        }
    }
}

pub proof fn lemma_first_line_len_concat(c: Seq<u8>, rest: Seq<u8>)
    requires
        forall|i: int| 0 <= i < c.len() ==> c[i] != NEWLINE,
    ensures
        first_line_len(c + seq![NEWLINE] + rest) == c.len(),
    decreases c.len(),
{
    let t = c + seq![NEWLINE] + rest;
    if c.len() == 0 {
        assert(t[0] == NEWLINE);
    } else {
        assert(t[0] == c[0]);
        lemma_first_line_len_concat(c.drop_first(), rest);
        assert(t.drop_first() =~= c.drop_first() + seq![NEWLINE] + rest);
    }
}

/// Splitting off a complete first line: a newline after a newline-free
/// prefix `c` closes `c` as the first line, and the rest splits on its own.
pub proof fn lemma_lines_split(c: Seq<u8>, rest: Seq<u8>)
    requires
        forall|i: int| 0 <= i < c.len() ==> c[i] != NEWLINE,
    ensures
        spec_lines(c + seq![NEWLINE] + rest) == seq![c] + spec_lines(rest),
{
    let t = c + seq![NEWLINE] + rest;
    lemma_first_line_len_concat(c, rest);
    let k = first_line_len(t);
    assert(k < t.len());
    assert(t.take(k as int) =~= c);
    assert(t.skip(k as int + 1) =~= rest);
}

/// A newline-free text is one single line, or no line at all if empty.
pub proof fn lemma_lines_single(c: Seq<u8>)
    requires
        forall|i: int| 0 <= i < c.len() ==> c[i] != NEWLINE,
        c.len() > 0,
    ensures
        spec_lines(c) == seq![c],
{
    lemma_first_line_len(c);
    if first_line_len(c) < c.len() {
        assert(c[first_line_len(c) as int] == NEWLINE);
        assert(false);
    }
}

pub proof fn lemma_newline_starts_bounds(t: Seq<u8>, i: int)
    ensures
        forall|k: int|
            0 <= k < newline_starts(t, i).len() ==> i < #[trigger] newline_starts(t, i)[k]
                < t.len(),
        forall|k: int, m: int|
            0 <= k < m < newline_starts(t, i).len() ==> #[trigger] newline_starts(t, i)[k]
                < #[trigger] newline_starts(t, i)[m],
    decreases t.len() - i,
{
    if i < 0 || i >= t.len() {
    } else {
        lemma_newline_starts_bounds(t, i + 1);
        let s = newline_starts(t, i);
        let s1 = newline_starts(t, i + 1);
        if t[i] == NEWLINE && i + 1 < t.len() {
            assert forall|k: int| 0 <= k < s.len() implies i < #[trigger] s[k] < t.len() by {
                if k > 0 {
                    assert(s[k] == s1[k - 1]);
                }
            }
            assert forall|k: int, m: int| 0 <= k < m < s.len() implies #[trigger] s[k]
                < #[trigger] s[m] by {
                assert(s[m] == s1[m - 1]);
                if k > 0 {
                    assert(s[k] == s1[k - 1]);
                }
            }
        }
    }
}

/// The line-start table is well formed: it begins at offset zero, grows
/// strictly, and stays within the buffer.
pub proof fn lemma_line_starts_wf(t: Seq<u8>)
    ensures
        forall|k: int|
            0 <= k < spec_line_starts(t).len() ==> 0 <= #[trigger] spec_line_starts(t)[k]
                <= t.len(),
        forall|k: int, m: int|
            0 <= k < m < spec_line_starts(t).len() ==> #[trigger] spec_line_starts(t)[k]
                < #[trigger] spec_line_starts(t)[m],
        spec_line_starts(t).len() > 0 ==> spec_line_starts(t)[0] == 0,
{
    if t.len() > 0 {
        lemma_newline_starts_bounds(t, 0);
        let s = spec_line_starts(t);
        let s1 = newline_starts(t, 0);
        assert forall|k: int| 0 <= k < s.len() implies 0 <= #[trigger] s[k] <= t.len() by {
            if k > 0 {
                assert(s[k] == s1[k - 1]);
            }
        }
        assert forall|k: int, m: int| 0 <= k < m < s.len() implies #[trigger] s[k]
            < #[trigger] s[m] by {
            assert(s[m] == s1[m - 1]);
            if k > 0 {
                assert(s[k] == s1[k - 1]);
            }
        }
    }
}

/// Splits a text buffer into its lines.
pub fn split_lines(text: &Vec<u8>) -> (r: Vec<Vec<u8>>)
    ensures
        r.deep_view() == spec_lines(text@),
{
    let mut r: Vec<Vec<u8>> = Vec::new();
    let mut cur: Vec<u8> = Vec::new();
    let mut i: usize = 0;
    proof {
        assert(cur@ + text@.skip(0) =~= text@);
        assert(r.deep_view() + spec_lines(text@) =~= spec_lines(text@));
    }
    while i < text.len()
        invariant
            i <= text@.len(),
            forall|j: int| 0 <= j < cur@.len() ==> cur@[j] != NEWLINE,
            r.deep_view() + spec_lines(cur@ + text@.skip(i as int)) == spec_lines(text@),
        decreases text@.len() - i,
    {
        let b = text[i];
        let ghost prev_cur = cur@;
        let ghost prev_r = r.deep_view();
        if b == NEWLINE {
            proof {
                lemma_lines_split(prev_cur, text@.skip(i as int + 1));
                assert(prev_cur + text@.skip(i as int) =~= prev_cur + seq![NEWLINE] + text@.skip(
                    i as int + 1,
                ));
            }
            r.push(cur);
            cur = Vec::new();
            proof {
                assert(r.deep_view() =~~= prev_r + seq![prev_cur]);
                assert(cur@ + text@.skip(i as int + 1) =~= text@.skip(i as int + 1));
                assert(r.deep_view() + spec_lines(cur@ + text@.skip(i as int + 1)) =~= prev_r + (
                seq![prev_cur] + spec_lines(text@.skip(i as int + 1))));
            }
        } else {
            cur.push(b);
            proof {
                assert(cur@ + text@.skip(i as int + 1) =~= prev_cur + text@.skip(i as int));
            }
        }
        i = i + 1;
    }
    proof {
        assert(cur@ + text@.skip(i as int) =~= cur@);
    }
    if cur.len() > 0 {
        proof {
            lemma_lines_single(cur@);
        }
        let ghost prev_r = r.deep_view();
        let ghost last = cur@;
        r.push(cur);
        proof {
            assert(r.deep_view() =~~= prev_r + seq![last]);
        }
    } else {
        proof {
            assert(spec_lines(cur@) =~= Seq::<Seq<u8>>::empty());
            assert(r.deep_view() =~= r.deep_view() + spec_lines(cur@));
        }
    }
    r
}

/// Computes the byte offset at which each line of the buffer starts.
pub fn compute_line_starts(text: &Vec<u8>) -> (r: Vec<usize>)
    ensures
        to_ints(r@) == spec_line_starts(text@),
{
    let mut r: Vec<usize> = Vec::new();
    if text.len() == 0 {
        proof {
            assert(to_ints(r@) =~= spec_line_starts(text@));
        }
        return r;
    }
    r.push(0);
    let mut i: usize = 0;
    proof {
        assert(to_ints(r@) =~= seq![0int]);
        assert(to_ints(r@) + newline_starts(text@, 0) =~= spec_line_starts(text@));
    }
    while i < text.len()
        invariant
            i <= text@.len(),
            text@.len() > 0,
            to_ints(r@) + newline_starts(text@, i as int) == spec_line_starts(text@),
        decreases text@.len() - i,
    {
        let ghost prev = to_ints(r@);
        if text[i] == NEWLINE && i + 1 < text.len() {
            r.push(i + 1);
            proof {
                assert(to_ints(r@) =~= prev + seq![i as int + 1]);
                assert(to_ints(r@) + newline_starts(text@, i as int + 1) =~= prev + (seq![
                    i as int + 1,
                ] + newline_starts(text@, i as int + 1)));
            }
        }
        i = i + 1;
    }
    proof {
        assert(to_ints(r@) =~= to_ints(r@) + newline_starts(text@, i as int));
    }
    r
}

/// The line in which the byte at offset `off` falls; offsets at or past the
/// end of the buffer are clamped to its last byte.
pub fn line_of_offset(text: &Vec<u8>, off: usize) -> (r: usize)
    ensures
        r as int == spec_line_of_offset(text@, off as int),
{
    let end = if off <= text.len() {
        off
    } else {
        text.len()
    };
    let mut count: usize = 0;
    let mut i: usize = 0;
    while i < end
        invariant
            i <= end <= text@.len(),
            count <= i,
            count as int == newline_count(text@, i as int),
        decreases end - i,
    {
        if text[i] == NEWLINE {
            count = count + 1;
        }
        i = i + 1;
    }
    count
}

} // verus!
