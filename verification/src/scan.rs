//! Splitting source text into lines and fields, as the dictionary compiler
//! reads its inputs.

use vstd::prelude::*;

verus! {

/// Unicode White_Space, the characters that `char::is_whitespace` accepts.
pub open spec fn is_white_space(c: char) -> bool {
    ||| '\u{9}' <= c <= '\u{d}'
    ||| c == ' '
    ||| c == '\u{85}'
    ||| c == '\u{a0}'
    ||| c == '\u{1680}'
    ||| '\u{2000}' <= c <= '\u{200a}'
    ||| c == '\u{2028}'
    ||| c == '\u{2029}'
    ||| c == '\u{202f}'
    ||| c == '\u{205f}'
    ||| c == '\u{3000}'
}

pub fn white_space(c: char) -> (r: bool)
    ensures
        r == is_white_space(c),
{
    ('\u{9}' <= c && c <= '\u{d}') || c == ' ' || c == '\u{85}' || c == '\u{a0}' || c == '\u{1680}' || ('\u{2000}' <= c
        && c <= '\u{200a}') || c == '\u{2028}' || c == '\u{2029}' || c == '\u{202f}' || c == '\u{205f}' || c == '\u{3000}'
}

/// `s` without one final carriage return.
pub open spec fn strip_cr(s: Seq<char>) -> Seq<char> {
    if s.len() > 0 && s.last() == '\r' {
        s.drop_last()
    } else {
        s
    }
}

/// The lines of `s[i..]` after the lines `acc` and the started line `cur`: a
/// line ends at each line feed, which is dropped with a carriage return before
/// it; a last line without a line feed counts when it is not empty.
pub open spec fn lines_from(s: Seq<char>, i: int, cur: Seq<char>, acc: Seq<Seq<char>>) -> Seq<Seq<char>>
    decreases s.len() - i,
{
    if i < 0 || i >= s.len() {
        if cur.len() > 0 {
            acc.push(cur)
        } else {
            acc
        }
    } else if s[i] == '\n' {
        lines_from(s, i + 1, Seq::empty(), acc.push(strip_cr(cur)))
    } else {
        lines_from(s, i + 1, cur.push(s[i]), acc)
    }
}

/// The lines of `s`, as `BufRead::lines` yields them.
pub open spec fn spec_lines(s: Seq<char>) -> Seq<Seq<char>> {
    lines_from(s, 0, Seq::empty(), Seq::empty())
}

pub open spec fn chars_views(v: Seq<Vec<char>>) -> Seq<Seq<char>> {
    v.map_values(|x: Vec<char>| x@)
}

/// The lines of `s`.
pub fn split_lines(s: &[char]) -> (r: Vec<Vec<char>>)
    ensures
        chars_views(r@) == spec_lines(s@),
{
    let mut out: Vec<Vec<char>> = Vec::new();
    let mut cur: Vec<char> = Vec::new();
    let mut i: usize = 0;
    proof {
        assert(chars_views(out@) =~= Seq::<Seq<char>>::empty());
        assert(cur@ =~= Seq::<char>::empty());
    }
    while i < s.len()
        invariant
            i <= s@.len(),
            spec_lines(s@) == lines_from(s@, i as int, cur@, chars_views(out@)),
        decreases s@.len() - i,
    {
        if s[i] == '\n' {
            let mut line = Vec::new();
            std::mem::swap(&mut line, &mut cur);
            if line.len() > 0 && line[line.len() - 1] == '\r' {
                line.pop();
            }
            let ghost before = chars_views(out@);
            out.push(line);
            proof {
                assert(chars_views(out@) =~= before.push(line@));
            }
        } else {
            cur.push(s[i]);
        }
        i = i + 1;
    }
    if cur.len() > 0 {
        let ghost before = chars_views(out@);
        out.push(cur);
        proof {
            assert(chars_views(out@) =~= before.push(cur@));
        }
    }
    out
}

/// A separator between fields: a tab, or any white space.
pub open spec fn is_separator(c: char, tabs: bool) -> bool {
    if tabs {
        c == '\t'
    } else {
        is_white_space(c)
    }
}

/// The non-empty runs of non-separators in `s[i..]`, after the runs `acc` and
/// the started run `cur`.
pub open spec fn fields_from(s: Seq<char>, tabs: bool, i: int, cur: Seq<char>, acc: Seq<Seq<char>>) -> Seq<Seq<char>>
    decreases s.len() - i,
{
    if i < 0 || i >= s.len() {
        if cur.len() > 0 {
            acc.push(cur)
        } else {
            acc
        }
    } else if is_separator(s[i], tabs) {
        if cur.len() > 0 {
            fields_from(s, tabs, i + 1, Seq::empty(), acc.push(cur))
        } else {
            fields_from(s, tabs, i + 1, Seq::empty(), acc)
        }
    } else {
        fields_from(s, tabs, i + 1, cur.push(s[i]), acc)
    }
}

/// The non-empty fields of `s` between separators: `split_whitespace`, or
/// `split('\t')` without the empty pieces.
pub open spec fn spec_fields(s: Seq<char>, tabs: bool) -> Seq<Seq<char>> {
    fields_from(s, tabs, 0, Seq::empty(), Seq::empty())
}

/// The non-empty fields of `s` between tabs, or between runs of white space.
pub fn split_fields(s: &[char], tabs: bool) -> (r: Vec<Vec<char>>)
    ensures
        chars_views(r@) == spec_fields(s@, tabs),
{
    let mut out: Vec<Vec<char>> = Vec::new();
    let mut cur: Vec<char> = Vec::new();
    let mut i: usize = 0;
    proof {
        assert(chars_views(out@) =~= Seq::<Seq<char>>::empty());
        assert(cur@ =~= Seq::<char>::empty());
    }
    while i < s.len()
        invariant
            i <= s@.len(),
            spec_fields(s@, tabs) == fields_from(s@, tabs, i as int, cur@, chars_views(out@)),
        decreases s@.len() - i,
    {
        let c = s[i];
        let sep = if tabs {
            c == '\t'
        } else {
            white_space(c)
        };
        if sep {
            if cur.len() > 0 {
                let mut field = Vec::new();
                std::mem::swap(&mut field, &mut cur);
                let ghost before = chars_views(out@);
                out.push(field);
                proof {
                    assert(chars_views(out@) =~= before.push(field@));
                }
            } else {
                proof {
                    assert(cur@ =~= Seq::<char>::empty());
                }
            }
        } else {
            cur.push(c);
        }
        i = i + 1;
    }
    if cur.len() > 0 {
        let ghost before = chars_views(out@);
        out.push(cur);
        proof {
            assert(chars_views(out@) =~= before.push(cur@));
        }
    }
    out
}

/// The number of white-space characters that `s` starts with.
pub open spec fn leading_space(s: Seq<char>) -> nat
    decreases s.len(),
{
    if s.len() > 0 && is_white_space(s[0]) {
        1 + leading_space(s.drop_first())
    } else {
        0
    }
}

/// The number of white-space characters that `s` ends with.
pub open spec fn trailing_space(s: Seq<char>) -> nat
    decreases s.len(),
{
    if s.len() > 0 && is_white_space(s.last()) {
        1 + trailing_space(s.drop_last())
    } else {
        0
    }
}

/// `s` without leading and trailing white space, as `str::trim` gives it.
pub open spec fn spec_trim(s: Seq<char>) -> Seq<char> {
    let rest = s.skip(leading_space(s) as int);
    rest.take(rest.len() - trailing_space(rest))
}

proof fn lemma_leading_bound(s: Seq<char>)
    ensures
        leading_space(s) <= s.len(),
    decreases s.len(),
{
    if s.len() > 0 && is_white_space(s[0]) {
        lemma_leading_bound(s.drop_first());
    }
}

proof fn lemma_trailing_bound(s: Seq<char>)
    ensures
        trailing_space(s) <= s.len(),
    decreases s.len(),
{
    if s.len() > 0 && is_white_space(s.last()) {
        lemma_trailing_bound(s.drop_last());
    }
}

/// `s` without leading and trailing white space.
pub fn trim(s: &[char]) -> (r: Vec<char>)
    ensures
        r@ == spec_trim(s@),
{
    let mut from: usize = 0;
    proof {
        assert(s@.skip(0) =~= s@);
    }
    while from < s.len() && white_space(s[from])
        invariant
            from <= s@.len(),
            leading_space(s@) == from + leading_space(s@.skip(from as int)),
        decreases s@.len() - from,
    {
        proof {
            assert(s@.skip(from as int).drop_first() =~= s@.skip(from + 1));
        }
        from = from + 1;
    }
    proof {
        if from < s@.len() {
            assert(s@.skip(from as int)[0] == s@[from as int]);
        }
    }
    let ghost rest = s@.skip(from as int);
    let mut to: usize = s.len();
    proof {
        assert(rest.take(rest.len() as int) =~= rest);
        lemma_leading_bound(s@);
    }
    while to > from && white_space(s[to - 1])
        invariant
            from <= to <= s@.len(),
            rest == s@.skip(from as int),
            trailing_space(rest) == (s@.len() - to) + trailing_space(rest.take(to - from)),
        decreases to - from,
    {
        proof {
            assert(rest.take(to - from).drop_last() =~= rest.take(to - 1 - from));
        }
        to = to - 1;
    }
    proof {
        if to > from {
            assert(rest.take(to - from).last() == s@[to - 1]);
        }
    }
    let mut out: Vec<char> = Vec::new();
    let mut i = from;
    while i < to
        invariant
            from <= i <= to <= s@.len(),
            out@ == s@.subrange(from as int, i as int),
        decreases to - i,
    {
        out.push(s[i]);
        proof {
            assert(s@.subrange(from as int, i + 1) =~= s@.subrange(from as int, i as int).push(s@[i as int]));
        }
        i = i + 1;
    }
    proof {
        assert(s@.subrange(from as int, to as int) =~= rest.take(rest.len() - trailing_space(rest)));
    }
    out
}

} // verus!
