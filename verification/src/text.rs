//! Splitting and trimming of character sequences.

use vstd::prelude::*;

verus! {

/// The code points that Unicode classes as `White_Space`.
pub open spec fn is_blank(c: char) -> bool {
    let u = c as u32;
    ||| 0x09 <= u <= 0x0D
    ||| u == 0x20
    ||| u == 0x85
    ||| u == 0xA0
    ||| u == 0x1680
    ||| 0x2000 <= u <= 0x200A
    ||| u == 0x2028
    ||| u == 0x2029
    ||| u == 0x202F
    ||| u == 0x205F
    ||| u == 0x3000
}

/// Tells whether `c` is white space.
pub fn char_is_blank(c: char) -> (b: bool)
    ensures
        b == is_blank(c),
{
    let u: u32 = c as u32;
    (0x09 <= u && u <= 0x0D) || u == 0x20 || u == 0x85 || u == 0xA0 || u == 0x1680 || (0x2000 <= u
        && u <= 0x200A) || u == 0x2028 || u == 0x2029 || u == 0x202F || u == 0x205F || u == 0x3000
}

/// `s` without its leading white space.
pub open spec fn trim_start(s: Seq<char>) -> Seq<char>
    decreases s.len(),
{
    if s.len() > 0 && is_blank(s.first()) {
        trim_start(s.drop_first())
    } else {
        s
    }
}

/// `s` without its trailing white space.
pub open spec fn trim_end(s: Seq<char>) -> Seq<char>
    decreases s.len(),
{
    if s.len() > 0 && is_blank(s.last()) {
        trim_end(s.drop_last())
    } else {
        s
    }
}

/// `s` without the white space that surrounds it.
pub open spec fn trim(s: Seq<char>) -> Seq<char> {
    trim_end(trim_start(s))
}

/// Trimming at the start takes away blanks only, and all of them: the place
/// where what is left begins.
pub proof fn lemma_trim_start_cuts_blanks(s: Seq<char>) -> (lo: int)
    ensures
        0 <= lo <= s.len(),
        trim_start(s) == s.subrange(lo, s.len() as int),
        forall|i: int| 0 <= i < lo ==> is_blank(#[trigger] s[i]),
        lo < s.len() ==> !is_blank(s[lo]),
    decreases s.len(),
{
    if s.len() > 0 && is_blank(s.first()) {
        let rest = s.drop_first();
        let inner = lemma_trim_start_cuts_blanks(rest);
        assert(rest.subrange(inner, rest.len() as int) =~= s.subrange(inner + 1, s.len() as int));
        assert forall|i: int| 0 <= i < inner + 1 implies is_blank(#[trigger] s[i]) by {
            if i > 0 {
                assert(s[i] == rest[i - 1]);
            }
        }
        if inner + 1 < s.len() {
            assert(s[inner + 1] == rest[inner]);
        }
        inner + 1
    } else {
        assert(s.subrange(0, s.len() as int) =~= s);
        0
    }
}

/// Trimming at the end takes away blanks only, and all of them: the place
/// where what is left ends.
pub proof fn lemma_trim_end_cuts_blanks(s: Seq<char>) -> (hi: int)
    ensures
        0 <= hi <= s.len(),
        trim_end(s) == s.subrange(0, hi),
        forall|i: int| hi <= i < s.len() ==> is_blank(#[trigger] s[i]),
        hi > 0 ==> !is_blank(s[hi - 1]),
    decreases s.len(),
{
    if s.len() > 0 && is_blank(s.last()) {
        let rest = s.drop_last();
        let inner = lemma_trim_end_cuts_blanks(rest);
        assert(rest.subrange(0, inner) =~= s.subrange(0, inner));
        assert forall|i: int| inner <= i < s.len() implies is_blank(#[trigger] s[i]) by {
            if i < s.len() - 1 {
                assert(s[i] == rest[i]);
            }
        }
        if inner > 0 {
            assert(s[inner - 1] == rest[inner - 1]);
        }
        inner
    } else {
        assert(s.subrange(0, s.len() as int) =~= s);
        s.len() as int
    }
}

/// Trimming keeps one stretch of the text: all that it leaves out is blank,
/// and what it keeps neither begins nor ends with a blank.
pub proof fn lemma_trim_keeps_the_core(s: Seq<char>) -> (bounds: (int, int))
    ensures
        0 <= bounds.0 <= bounds.1 <= s.len(),
        trim(s) == s.subrange(bounds.0, bounds.1),
        forall|i: int| 0 <= i < bounds.0 || bounds.1 <= i < s.len() ==> is_blank(#[trigger] s[i]),
        trim(s).len() > 0 ==> !is_blank(trim(s).first()) && !is_blank(trim(s).last()),
{
    let lo = lemma_trim_start_cuts_blanks(s);
    let tail = s.subrange(lo, s.len() as int);
    let cut = lemma_trim_end_cuts_blanks(tail);
    assert(tail.subrange(0, cut) =~= s.subrange(lo, lo + cut));
    assert forall|i: int| 0 <= i < lo || lo + cut <= i < s.len() implies is_blank(
        #[trigger] s[i],
    ) by {
        if lo + cut <= i {
            assert(s[i] == tail[i - lo]);
        }
    }
    if cut > 0 {
        assert(tail[cut - 1] == s[lo + cut - 1]);
        assert(tail[0] == s[lo]);
    }
    (lo, lo + cut)
}

/// The pieces of `s` between occurrences of `sep`, in order. There is always
/// one piece more than there are separators; pieces may be empty.
pub open spec fn split_on(s: Seq<char>, sep: char) -> Seq<Seq<char>>
    decreases s.len(),
{
    if s.len() == 0 {
        seq![Seq::empty()]
    } else {
        let before = split_on(s.drop_last(), sep);
        if s.last() == sep {
            before.push(Seq::empty())
        } else {
            before.drop_last().push(before.last().push(s.last()))
        }
    }
}

/// The pieces put together again, with `sep` between neighbours.
pub open spec fn join_with(pieces: Seq<Seq<char>>, sep: char) -> Seq<char>
    decreases pieces.len(),
{
    if pieces.len() == 0 {
        Seq::empty()
    } else if pieces.len() == 1 {
        pieces[0]
    } else {
        join_with(pieces.drop_last(), sep).push(sep) + pieces.last()
    }
}

/// Splitting never yields an empty list of pieces.
pub proof fn lemma_split_nonempty(s: Seq<char>, sep: char)
    ensures
        split_on(s, sep).len() >= 1,
    decreases s.len(),
{
    if s.len() > 0 {
        lemma_split_nonempty(s.drop_last(), sep);
    }
}

/// Splitting loses nothing: joining the pieces with the separator gives the
/// text back, and no piece holds the separator.
pub proof fn lemma_split_then_join(s: Seq<char>, sep: char)
    ensures
        join_with(split_on(s, sep), sep) == s,
        forall|k: int| 0 <= k < split_on(s, sep).len() ==> !(#[trigger] split_on(s, sep)[k]).contains(sep),
    decreases s.len(),
{
    let pieces = split_on(s, sep);
    if s.len() == 0 {
        assert(pieces[0] =~= Seq::<char>::empty());
        assert(join_with(pieces, sep) =~= s);
    } else {
        let t = s.drop_last();
        let before = split_on(t, sep);
        lemma_split_nonempty(t, sep);
        lemma_split_then_join(t, sep);
        if s.last() == sep {
            assert(pieces.drop_last() =~= before);
            assert(join_with(pieces, sep) =~= t.push(sep) + Seq::<char>::empty());
            assert(join_with(pieces, sep) =~= s);
        } else {
            let grown = before.last().push(s.last());
            assert(pieces.last() == grown);
            assert(pieces.drop_last() =~= before.drop_last());
            if before.len() == 1 {
                assert(join_with(before, sep) == before[0]);
                assert(pieces.len() == 1);
                assert(join_with(pieces, sep) == grown);
                assert(grown =~= s);
            } else {
                assert(join_with(before, sep) == join_with(before.drop_last(), sep).push(sep)
                    + before.last());
                let head = join_with(before.drop_last(), sep).push(sep);
                assert(join_with(pieces, sep) == head + grown);
                assert(s =~= t.push(s.last()));
                assert((head + before.last()).push(s.last()) =~= head + grown);
            }
            assert forall|k: int| 0 <= k < pieces.len() implies !(#[trigger] pieces[k]).contains(
                sep,
            ) by {
                if k < pieces.len() - 1 {
                    assert(pieces[k] == before[k]);
                } else {
                    assert(!before[k].contains(sep));
                    if grown.contains(sep) {
                        let j = choose|j: int| 0 <= j < grown.len() && grown[j] == sep;
                        assert(before[k][j] == sep);
                    }
                }
            }
        }
    }
}

/// The part of `text` between `lo` and `hi`, cut at every `sep`: the bounds of
/// each piece, in order.
pub fn split_spans(text: &Vec<char>, lo: usize, hi: usize, sep: char) -> (spans: Vec<(usize, usize)>)
    requires
        lo <= hi <= text.len(),
    ensures
        spans.len() == split_on(text@.subrange(lo as int, hi as int), sep).len(),
        forall|k: int|
            0 <= k < spans.len() ==> {
                &&& lo <= (#[trigger] spans[k]).0 <= spans[k].1 <= hi
                &&& text@.subrange(spans[k].0 as int, spans[k].1 as int) == split_on(
                    text@.subrange(lo as int, hi as int),
                    sep,
                )[k]
            },
{
    let mut spans: Vec<(usize, usize)> = Vec::new();
    let mut start: usize = lo;
    let mut i: usize = lo;
    proof {
        assert(text@.subrange(lo as int, lo as int) =~= Seq::<char>::empty());
    }
    while i < hi
        invariant
            lo <= start <= i <= hi <= text.len(),
            split_on(text@.subrange(lo as int, i as int), sep).len() == spans.len() + 1,
            split_on(text@.subrange(lo as int, i as int), sep).last() == text@.subrange(
                start as int,
                i as int,
            ),
            forall|k: int|
                0 <= k < spans.len() ==> {
                    &&& lo <= (#[trigger] spans[k]).0 <= spans[k].1 <= hi
                    &&& text@.subrange(spans[k].0 as int, spans[k].1 as int) == split_on(
                        text@.subrange(lo as int, i as int),
                        sep,
                    )[k]
                },
        decreases hi - i,
    {
        let ghost prev = text@.subrange(lo as int, i as int);
        let ghost next = text@.subrange(lo as int, i + 1);
        proof {
            assert(next.drop_last() =~= prev);
            assert(next.last() == text@[i as int]);
        }
        if text[i] == sep {
            spans.push((start, i));
            start = i + 1;
            proof {
                assert(text@.subrange(start as int, i + 1) =~= Seq::<char>::empty());
            }
        } else {
            proof {
                assert(text@.subrange(start as int, i + 1) =~= text@.subrange(
                    start as int,
                    i as int,
                ).push(text@[i as int]));
            }
        }
        i = i + 1;
    }
    spans.push((start, hi));
    spans
}

/// The bounds of the part of `text` between `lo` and `hi` once the white space
/// around it is left out.
pub fn trim_span(text: &Vec<char>, lo: usize, hi: usize) -> (span: (usize, usize))
    requires
        lo <= hi <= text.len(),
    ensures
        lo <= span.0 <= span.1 <= hi,
        text@.subrange(span.0 as int, span.1 as int) == trim(text@.subrange(lo as int, hi as int)),
{
    let mut a: usize = lo;
    while a < hi && char_is_blank(text[a])
        invariant
            lo <= a <= hi <= text.len(),
            trim_start(text@.subrange(lo as int, hi as int)) == trim_start(
                text@.subrange(a as int, hi as int),
            ),
        decreases hi - a,
    {
        proof {
            assert(text@.subrange(a as int, hi as int).drop_first() =~= text@.subrange(
                a + 1,
                hi as int,
            ));
        }
        a = a + 1;
    }
    let mut b: usize = hi;
    while a < b && char_is_blank(text[b - 1])
        invariant
            lo <= a <= b <= hi <= text.len(),
            trim(text@.subrange(lo as int, hi as int)) == trim_end(
                text@.subrange(a as int, b as int),
            ),
        decreases b - a,
    {
        proof {
            assert(text@.subrange(a as int, b as int).drop_last() =~= text@.subrange(
                a as int,
                b - 1,
            ));
        }
        b = b - 1;
    }
    (a, b)
}

} // verus!
