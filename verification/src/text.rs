//! Tokens and numbers in text: the whitespace splitting and the unsigned
//! number syntax that the file readers rely on.
use vstd::prelude::*;

verus! {

broadcast use vstd::string::group_string_axioms;

/// The characters of `s`, in order.
pub fn chars_of(s: &str) -> (v: Vec<char>)
    ensures
        v@ == s@,
{
    let mut v: Vec<char> = Vec::new();
    for c in it: s.chars()
        invariant
            it.seq() == s@,
            v@ == it.seq().take(it.index()),
    {
        v.push(c);
    }
    v
}

/// Unicode white space, as `char::is_whitespace` documents it.
pub open spec fn is_white_space(c: char) -> bool {
    let u = c as u32;
    ||| 0x9 <= u <= 0xd
    ||| u == 0x20
    ||| u == 0x85
    ||| u == 0xa0
    ||| u == 0x1680
    ||| 0x2000 <= u <= 0x200a
    ||| u == 0x2028
    ||| u == 0x2029
    ||| u == 0x202f
    ||| u == 0x205f
    ||| u == 0x3000
}

/// Whether `c` is white space.
pub fn white_space(c: char) -> (b: bool)
    ensures
        b == is_white_space(c),
{
    let u = c as u32;
    (0x9 <= u && u <= 0xd) || u == 0x20 || u == 0x85 || u == 0xa0 || u == 0x1680 || (0x2000 <= u
        && u <= 0x200a) || u == 0x2028 || u == 0x2029 || u == 0x202f || u == 0x205f || u == 0x3000
}

/// The maximal runs of non-white-space characters of `s`, in order, as
/// `str::split_whitespace` yields them.
pub open spec fn split_whitespace(s: Seq<char>) -> Seq<Seq<char>>
    decreases s.len(),
{
    if s.len() == 0 {
        Seq::empty()
    } else {
        let t = split_whitespace(s.drop_last());
        if is_white_space(s.last()) {
            t
        } else if s.len() > 1 && !is_white_space(s[s.len() - 2]) {
            t.update(t.len() - 1, t.last().push(s.last()))
        } else {
            t.push(seq![s.last()])
        }
    }
}

/// The number of positions of `s` where a run of non-white-space
/// characters begins.
pub open spec fn run_starts(s: Seq<char>) -> nat
    decreases s.len(),
{
    if s.len() == 0 {
        0
    } else {
        run_starts(s.drop_last()) + if !is_white_space(s.last()) && (s.len() == 1
            || is_white_space(s[s.len() - 2])) {
            1nat
        } else {
            0
        }
    }
}

proof fn lemma_split_whitespace_alt(s: Seq<char>)
    ensures
        forall|k: int|
            0 <= k < split_whitespace(s).len() ==> (#[trigger] split_whitespace(s)[k]).len() > 0
                && forall|j: int| 0 <= j < split_whitespace(s)[k].len() ==> !is_white_space(
                #[trigger] split_whitespace(s)[k][j],
            ),
        split_whitespace(s).flatten_alt() == s.filter(|c: char| !is_white_space(c)),
        split_whitespace(s).len() == run_starts(s),
        s.len() > 0 && !is_white_space(s.last()) ==> split_whitespace(s).len() > 0,
    decreases s.len(),
{
    reveal(Seq::filter);
    if s.len() > 0 {
        let init = s.drop_last();
        let c = s.last();
        lemma_split_whitespace_alt(init);
        let t = split_whitespace(init);
        let r = split_whitespace(s);
        if is_white_space(c) {
        } else if s.len() > 1 && !is_white_space(s[s.len() - 2]) {
            assert(init.last() == s[s.len() - 2]);
            let last = t.last().push(c);
            assert(r == t.update(t.len() - 1, last));
            assert forall|k: int| 0 <= k < r.len() implies (#[trigger] r[k]).len() > 0 && forall|j: int|
                0 <= j < r[k].len() ==> !is_white_space(#[trigger] r[k][j]) by {
                if k < t.len() - 1 {
                    assert(r[k] == t[k]);
                } else {
                    assert(r[k] == last);
                    assert forall|j: int| 0 <= j < last.len() implies !is_white_space(#[trigger] last[j]) by {
                        if j < t.last().len() {
                            assert(last[j] == t[t.len() - 1][j]);
                        }
                    }
                }
            }
            assert(r.drop_last() =~= t.drop_last());
            assert(r.flatten_alt() == r.drop_last().flatten_alt() + r.last());
            assert(t.flatten_alt() == t.drop_last().flatten_alt() + t.last());
            assert(r.flatten_alt() =~= t.flatten_alt().push(c));
        } else {
            let r2 = t.push(seq![c]);
            assert(r == r2);
            assert(r2.drop_last() =~= t);
            assert forall|k: int| 0 <= k < r.len() implies (#[trigger] r[k]).len() > 0 && forall|j: int|
                0 <= j < r[k].len() ==> !is_white_space(#[trigger] r[k][j]) by {
                if k < t.len() {
                    assert(r[k] == t[k]);
                }
            }
            assert(r.flatten_alt() =~= t.flatten_alt().push(c));
        }
    }
}

/// Splitting at white space gives nonempty tokens without white space,
/// one for each run of non-white-space characters, which together hold
/// exactly the non-white-space characters of the text, in order.
pub proof fn lemma_split_whitespace_tokens(s: Seq<char>)
    ensures
        forall|k: int|
            0 <= k < split_whitespace(s).len() ==> (#[trigger] split_whitespace(s)[k]).len() > 0
                && forall|j: int| 0 <= j < split_whitespace(s)[k].len() ==> !is_white_space(
                #[trigger] split_whitespace(s)[k][j],
            ),
        split_whitespace(s).flatten() == s.filter(|c: char| !is_white_space(c)),
        split_whitespace(s).len() == run_starts(s),
{
    lemma_split_whitespace_alt(s);
    split_whitespace(s).lemma_flatten_and_flatten_alt_are_equivalent();
}

/// `spans` marks, in `s`, the tokens `t` by half-open character ranges.
pub open spec fn spans_of(s: Seq<char>, spans: Seq<(usize, usize)>, t: Seq<Seq<char>>) -> bool {
    &&& spans.len() == t.len()
    &&& forall|k: int|
        0 <= k < spans.len() ==> {
            let (a, b) = #[trigger] spans[k];
            &&& a < b <= s.len()
            &&& t[k] == s.subrange(a as int, b as int)
        }
}

/// The positions of the whitespace-separated tokens of `s`.
pub fn token_spans(s: &Vec<char>) -> (spans: Vec<(usize, usize)>)
    ensures
        spans_of(s@, spans@, split_whitespace(s@)),
{
    let n = s.len();
    let mut spans: Vec<(usize, usize)> = Vec::new();
    let mut open = false;
    let mut start: usize = 0;
    let mut i: usize = 0;
    while i < n
        invariant
            n == s@.len(),
            i <= n,
            open <==> (i > 0 && !is_white_space(s@[i - 1])),
            open ==> start < i,
            ({
                let t = split_whitespace(s@.take(i as int));
                if open {
                    &&& t.len() == spans@.len() + 1
                    &&& spans_of(s@, spans@, t.take(spans@.len() as int))
                    &&& t.last() == s@.subrange(start as int, i as int)
                } else {
                    spans_of(s@, spans@, t)
                }
            }),
        decreases n - i,
    {
        let c = s[i];
        let ghost t = split_whitespace(s@.take(i as int));
        let ghost pre = s@.take(i + 1);
        assert(pre.drop_last() =~= s@.take(i as int));
        assert(pre.last() == c);
        if white_space(c) {
            if open {
                spans.push((start, i));
                assert(t.take(spans@.len() - 1).push(t.last()) =~= t);
            }
            open = false;
        } else if open {
            assert(pre[pre.len() - 2] == s@[i - 1]);
            assert(s@.subrange(start as int, i as int).push(c) =~= s@.subrange(
                start as int,
                i + 1,
            ));
            let ghost t2 = split_whitespace(pre);
            assert(t2.take(spans@.len() as int) =~= t.take(spans@.len() as int));
        } else {
            if i > 0 {
                assert(pre[pre.len() - 2] == s@[i - 1]);
            }
            assert(s@.subrange(i as int, i + 1) =~= seq![c]);
            let ghost t2 = split_whitespace(pre);
            assert(t2.take(spans@.len() as int) =~= t);
            start = i;
            open = true;
        }
        i = i + 1;
    }
    assert(s@.take(n as int) =~= s@);
    if open {
        let ghost t = split_whitespace(s@);
        spans.push((start, n));
        assert(t.take(spans@.len() - 1).push(t.last()) =~= t);
    }
    spans
}

/// Whether `c` is an ASCII decimal digit.
pub open spec fn is_digit(c: char) -> bool {
    '0' <= c <= '9'
}

/// The value of a run of decimal digits.
pub open spec fn digits_value(s: Seq<char>) -> int
    decreases s.len(),
{
    if s.len() == 0 {
        0
    } else {
        digits_value(s.drop_last()) * 10 + (s.last() as int - '0' as int)
    }
}

/// A run of decimal digits has a value of at least 0.
pub proof fn lemma_digits_value_nonnegative(s: Seq<char>)
    requires
        all_digits(s),
    ensures
        digits_value(s) >= 0,
    decreases s.len(),
{
    if s.len() > 0 {
        assert(is_digit(s[s.len() - 1]));
        assert(all_digits(s.drop_last())) by {
            assert forall|i: int| 0 <= i < s.drop_last().len() implies is_digit(
                #[trigger] s.drop_last()[i],
            ) by {
                assert(s.drop_last()[i] == s[i]);
            }
        }
        lemma_digits_value_nonnegative(s.drop_last());
    }
}

/// A number that parses lies between 0 and the largest value `max`.
pub proof fn lemma_parse_unsigned_range(s: Seq<char>, max: int)
    ensures
        parse_unsigned(s, max) matches Some(v) ==> 0 <= v <= max,
{
    if parse_unsigned(s, max) is Some {
        lemma_digits_value_nonnegative(unsigned_digits(s));
    }
}

/// The digits of an unsigned number: the text without one leading `+`.
pub open spec fn unsigned_digits(s: Seq<char>) -> Seq<char> {
    if s.len() > 0 && s[0] == '+' {
        s.drop_first()
    } else {
        s
    }
}

/// Every character of `d` is a decimal digit.
pub open spec fn all_digits(d: Seq<char>) -> bool {
    forall|i: int| 0 <= i < d.len() ==> is_digit(#[trigger] d[i])
}

/// What `str::parse` gives for an unsigned integer type whose largest
/// value is `max`: an optional `+`, then one or more decimal digits whose
/// value does not exceed `max`.
pub open spec fn parse_unsigned(s: Seq<char>, max: int) -> Option<int> {
    let d = unsigned_digits(s);
    if d.len() > 0 && all_digits(d) && digits_value(d) <= max {
        Some(digits_value(d))
    } else {
        None
    }
}

/// Parses the characters `s[from..to]` as an unsigned number no larger
/// than `max`.
pub fn parse_unsigned_chars(s: &Vec<char>, from: usize, to: usize, max: u64) -> (r: Option<u64>)
    requires
        from <= to <= s@.len(),
    ensures
        r matches Some(v) ==> parse_unsigned(s@.subrange(from as int, to as int), max as int)
            == Some(v as int),
        r is None ==> parse_unsigned(s@.subrange(from as int, to as int), max as int) is None,
{
    let ghost w = s@.subrange(from as int, to as int);
    let mut i = from;
    if i < to && s[i] == '+' {
        i = i + 1;
    }
    let ghost d = s@.subrange(i as int, to as int);
    assert(d =~= unsigned_digits(w));
    if i == to {
        return None;
    }
    let first = i;
    let mut acc: u64 = 0;
    let mut over = false;
    while i < to
        invariant
            from <= first <= i <= to <= s@.len(),
            d == s@.subrange(first as int, to as int),
            w == s@.subrange(from as int, to as int),
            d == unsigned_digits(w),
            forall|k: int| first <= k < i ==> is_digit(#[trigger] s@[k]),
            !over ==> acc == digits_value(s@.subrange(first as int, i as int)) && acc <= max,
            over ==> digits_value(s@.subrange(first as int, i as int)) > max,
        decreases to - i,
    {
        let c = s[i];
        if !('0' <= c && c <= '9') {
            assert(!is_digit(d[i - first]));
            return None;
        }
        let ghost p = s@.subrange(first as int, i + 1);
        assert(p.drop_last() =~= s@.subrange(first as int, i as int));
        assert(p.last() == c);
        let dv = (c as u32 - '0' as u32) as u64;
        if !over {
            let big = (acc as u128) * 10 + (dv as u128);
            if big > max as u128 {
                over = true;
            } else {
                acc = big as u64;
            }
        }
        i = i + 1;
    }
    assert(s@.subrange(first as int, i as int) =~= d);
    if over {
        None
    } else {
        Some(acc)
    }
}

/// Whether the characters of `s` are exactly those of `w`.
pub fn text_is(s: &str, w: &str) -> (b: bool)
    ensures
        b == (s@ == w@),
{
    let a = chars_of(s);
    let c = chars_of(w);
    if a.len() != c.len() {
        return false;
    }
    let mut i: usize = 0;
    while i < a.len()
        invariant
            a@ == s@,
            c@ == w@,
            a@.len() == c@.len(),
            i <= a@.len(),
            forall|k: int| 0 <= k < i ==> a@[k] == c@[k],
        decreases a@.len() - i,
    {
        if a[i] != c[i] {
            return false;
        }
        i = i + 1;
    }
    assert(a@ =~= c@);
    true
}

/// The characters `s[from..to]` as a string of their own.
pub fn substring(s: &str, from: usize, to: usize) -> (r: String)
    requires
        from <= to <= s@.len(),
    ensures
        r@ == s@.subrange(from as int, to as int),
{
    s.substring_char(from, to).to_owned()
}

/// The pieces of `s` between single spaces, as `str::split(' ')` yields
/// them; empty pieces included.
pub open spec fn split_on_space(s: Seq<char>) -> Seq<Seq<char>>
    decreases s.len(),
{
    if s.len() == 0 {
        seq![Seq::empty()]
    } else {
        let t = split_on_space(s.drop_last());
        if s.last() == ' ' {
            t.push(Seq::empty())
        } else {
            t.update(t.len() - 1, t.last().push(s.last()))
        }
    }
}

/// The pieces `p` joined with a single space between neighbours.
pub open spec fn joined_with_spaces(p: Seq<Seq<char>>) -> Seq<char>
    decreases p.len(),
{
    if p.len() == 0 {
        Seq::empty()
    } else if p.len() == 1 {
        p[0]
    } else {
        joined_with_spaces(p.drop_last()) + seq![' '] + p.last()
    }
}

/// Splitting on single spaces gives pieces without spaces that, joined
/// with single spaces again, give back the text.
pub proof fn lemma_split_on_space_rejoins(s: Seq<char>)
    ensures
        split_on_space(s).len() >= 1,
        forall|k: int| 0 <= k < split_on_space(s).len() ==> !(#[trigger] split_on_space(s)[k]).contains(' '),
        joined_with_spaces(split_on_space(s)) == s,
    decreases s.len(),
{
    if s.len() == 0 {
        assert(!Seq::<char>::empty().contains(' '));
    } else {
        let init = s.drop_last();
        lemma_split_on_space_rejoins(init);
        let t = split_on_space(init);
        let r = split_on_space(s);
        if s.last() == ' ' {
            assert(r == t.push(Seq::empty()));
            assert(r.drop_last() =~= t);
            assert forall|k: int| 0 <= k < r.len() implies !(#[trigger] r[k]).contains(' ') by {
                if k < t.len() {
                    assert(r[k] == t[k]);
                } else {
                    assert(r[k] =~= Seq::<char>::empty());
                }
            }
            assert(joined_with_spaces(r) =~= joined_with_spaces(t) + seq![' '] + Seq::<char>::empty());
            assert(init.push(' ') =~= s);
        } else {
            let last = t.last().push(s.last());
            assert(r == t.update(t.len() - 1, last));
            assert forall|k: int| 0 <= k < r.len() implies !(#[trigger] r[k]).contains(' ') by {
                if k < t.len() - 1 {
                    assert(r[k] == t[k]);
                } else {
                    assert(r[k] == last);
                    assert(!t[t.len() - 1].contains(' '));
                    if last.contains(' ') {
                        let j = choose|j: int| 0 <= j < last.len() && last[j] == ' ';
                        if j < t.last().len() {
                            assert(t.last()[j] == ' ');
                        }
                    }
                }
            }
            if t.len() == 1 {
                assert(joined_with_spaces(r) == last);
                assert(joined_with_spaces(t) == t[0]);
                assert(last =~= init.push(s.last()));
            } else {
                assert(r.drop_last() =~= t.drop_last());
                assert(joined_with_spaces(r) =~= joined_with_spaces(t.drop_last()) + seq![' '] + last);
                assert(joined_with_spaces(t) =~= joined_with_spaces(t.drop_last()) + seq![' '] + t.last());
            }
            assert(init.push(s.last()) =~= s);
        }
    }
}

/// The pieces of `s` between single spaces.
pub fn split_spaces(s: &str) -> (pieces: Vec<String>)
    ensures
        pieces@.len() == split_on_space(s@).len(),
        forall|k: int| 0 <= k < pieces@.len() ==> #[trigger] pieces@[k]@ == split_on_space(s@)[k],
{
    let cs = chars_of(s);
    let n = cs.len();
    let mut pieces: Vec<String> = Vec::new();
    let mut start: usize = 0;
    let mut i: usize = 0;
    while i < n
        invariant
            n == cs@.len(),
            cs@ == s@,
            start <= i <= n,
            ({
                let t = split_on_space(cs@.take(i as int));
                &&& t.len() == pieces@.len() + 1
                &&& forall|k: int| 0 <= k < pieces@.len() ==> #[trigger] pieces@[k]@ == t[k]
                &&& t.last() == cs@.subrange(start as int, i as int)
            }),
        decreases n - i,
    {
        let ghost t = split_on_space(cs@.take(i as int));
        let ghost pre = cs@.take(i + 1);
        assert(pre.drop_last() =~= cs@.take(i as int));
        assert(pre.last() == cs@[i as int]);
        if cs[i] == ' ' {
            let piece = substring(s, start, i);
            pieces.push(piece);
            start = i + 1;
            assert(cs@.subrange(start as int, i + 1) =~= Seq::<char>::empty());
        } else {
            assert(cs@.subrange(start as int, i as int).push(cs@[i as int]) =~= cs@.subrange(
                start as int,
                i + 1,
            ));
        }
        i = i + 1;
    }
    assert(cs@.take(n as int) =~= cs@);
    let last = substring(s, start, n);
    pieces.push(last);
    pieces
}

} // verus!
