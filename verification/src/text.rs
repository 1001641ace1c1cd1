//! Character-level helpers over `String`/`str` views (`Seq<char>`).

use vstd::prelude::*;
use std::collections::VecDeque;

verus! {

/// A queue holding the items of `v` in order, first at the front.
pub fn into_deque<T>(v: Vec<T>) -> (r: VecDeque<T>)
    ensures
        r@ == v@,
{
    let ghost all = v@;
    let mut v = v;
    let mut r: VecDeque<T> = VecDeque::new();
    while v.len() > 0
        invariant
            v@ + r@ == all,
        decreases v.len(),
    {
        let ghost before = v@;
        let x = v.pop().unwrap();
        r.push_front(x);
        assert(v@ + r@ =~= before + (r@.drop_first())) by {
            assert(before == v@.push(x));
        }
    }
    assert(v@ + r@ =~= r@);
    r
}

/// Unicode `White_Space`, the property `char::is_whitespace` tests.
pub open spec fn is_ws(c: char) -> bool {
    ||| ('\u{9}' <= c && c <= '\u{d}')
    ||| c == ' '
    ||| c == '\u{85}'
    ||| c == '\u{a0}'
    ||| c == '\u{1680}'
    ||| ('\u{2000}' <= c && c <= '\u{200a}')
    ||| c == '\u{2028}'
    ||| c == '\u{2029}'
    ||| c == '\u{202f}'
    ||| c == '\u{205f}'
    ||| c == '\u{3000}'
}

pub fn is_whitespace(c: char) -> (r: bool)
    ensures
        r == is_ws(c),
{
    ('\u{9}' <= c && c <= '\u{d}') || c == ' ' || c == '\u{85}' || c == '\u{a0}' || c == '\u{1680}'
        || ('\u{2000}' <= c && c <= '\u{200a}') || c == '\u{2028}' || c == '\u{2029}' || c
        == '\u{202f}' || c == '\u{205f}' || c == '\u{3000}'
}

/// The characters of `s`, in order.
pub fn chars_of(s: &str) -> (v: Vec<char>)
    ensures
        v@ == s@,
{
    let mut v: Vec<char> = Vec::new();
    for c in it: s.chars()
        invariant
            v@ == it.seq().take(it.index() as int),
    {
        v.push(c);
    }
    v
}


/// Appends `c` to `s`.
///
/// Trusted: `String::push` (std) appends exactly one character.
#[verifier::external_body]
pub(crate) fn push_char(s: &mut String, c: char)
    ensures
        final(s)@ == old(s)@.push(c),
{
    s.push(c);
}

/// A `String` holding exactly the characters of `v`.
pub fn string_of(v: &[char]) -> (s: String)
    ensures
        s@ == v@,
{
    let mut s = String::new();
    let mut i: usize = 0;
    while i < v.len()
        invariant
            i <= v.len(),
            s@ == v@.take(i as int),
        decreases v.len() - i,
    {
        push_char(&mut s, v[i]);
        i = i + 1;
        assert(v@.take(i as int) == v@.take((i - 1) as int).push(v@[i - 1]));
    }
    assert(v@.take(v.len() as int) == v@);
    s
}

/// `s` with leading characters satisfying whitespace removed.
pub open spec fn trim_start_seq(s: Seq<char>) -> Seq<char>
    decreases s.len(),
{
    if s.len() > 0 && is_ws(s[0]) {
        trim_start_seq(s.drop_first())
    } else {
        s
    }
}

/// `s` with trailing whitespace removed.
pub open spec fn trim_end_seq(s: Seq<char>) -> Seq<char>
    decreases s.len(),
{
    if s.len() > 0 && is_ws(s.last()) {
        trim_end_seq(s.drop_last())
    } else {
        s
    }
}

/// `str::trim`: whitespace removed from both ends.
pub open spec fn trim_seq(s: Seq<char>) -> Seq<char> {
    trim_end_seq(trim_start_seq(s))
}

/// Number of leading whitespace characters.
pub open spec fn lead_ws(s: Seq<char>) -> nat
    decreases s.len(),
{
    if s.len() > 0 && is_ws(s[0]) {
        1 + lead_ws(s.drop_first())
    } else {
        0
    }
}

pub proof fn lemma_trim_start(s: Seq<char>)
    ensures
        lead_ws(s) <= s.len(),
        trim_start_seq(s) == s.skip(lead_ws(s) as int),
        forall|i: int| 0 <= i < lead_ws(s) ==> is_ws(#[trigger] s[i]),
        lead_ws(s) < s.len() ==> !is_ws(s[lead_ws(s) as int]),
    decreases s.len(),
{
    if s.len() > 0 && is_ws(s[0]) {
        lemma_trim_start(s.drop_first());
        assert(s.drop_first().skip(lead_ws(s.drop_first()) as int) == s.skip(lead_ws(s) as int));
        assert forall|i: int| 0 <= i < lead_ws(s) implies is_ws(#[trigger] s[i]) by {
            if i > 0 {
                assert(s[i] == s.drop_first()[i - 1]);
            }
        }
    } else {
        assert(s.skip(0) == s);
    }
}

/// Number of trailing whitespace characters.
pub open spec fn trail_ws(s: Seq<char>) -> nat
    decreases s.len(),
{
    if s.len() > 0 && is_ws(s.last()) {
        1 + trail_ws(s.drop_last())
    } else {
        0
    }
}

pub proof fn lemma_trim_end(s: Seq<char>)
    ensures
        trail_ws(s) <= s.len(),
        trim_end_seq(s) == s.take(s.len() - trail_ws(s)),
        forall|i: int| s.len() - trail_ws(s) <= i < s.len() ==> is_ws(#[trigger] s[i]),
        trail_ws(s) < s.len() ==> !is_ws(s[s.len() - trail_ws(s) - 1]),
    decreases s.len(),
{
    if s.len() > 0 && is_ws(s.last()) {
        lemma_trim_end(s.drop_last());
        assert(s.drop_last().take(s.drop_last().len() - trail_ws(s.drop_last())) == s.take(
            s.len() - trail_ws(s),
        ));
        assert forall|i: int| s.len() - trail_ws(s) <= i < s.len() implies is_ws(#[trigger] s[i]) by {
            if i < s.len() - 1 {
                assert(s[i] == s.drop_last()[i]);
            }
        }
    } else {
        assert(s.take(s.len() as int) == s);
    }
}

/// Trimming never lengthens text.
pub proof fn lemma_trim_len(s: Seq<char>)
    ensures
        trim_seq(s).len() <= s.len(),
{
    lemma_trim_start(s);
    lemma_trim_end(trim_start_seq(s));
}

/// `str::trim` on a character vector: the bounds `[start, end)` of the
/// trimmed text.
pub fn trim_bounds(v: &[char]) -> (r: (usize, usize))
    ensures
        r.0 <= r.1 <= v.len(),
        v@.subrange(r.0 as int, r.1 as int) == trim_seq(v@),
{
    let mut start: usize = 0;
    while start < v.len() && is_whitespace(v[start])
        invariant
            start <= v.len(),
            forall|i: int| 0 <= i < start ==> is_ws(#[trigger] v@[i]),
        decreases v.len() - start,
    {
        start = start + 1;
    }
    proof {
        lemma_trim_start(v@);
        if lead_ws(v@) < start {
            assert(is_ws(v@[lead_ws(v@) as int]));
        }
        if start < lead_ws(v@) {
            assert(is_ws(v@[start as int]));
        }
    }
    let mut end: usize = v.len();
    while end > start && is_whitespace(v[end - 1])
        invariant
            start <= end <= v.len(),
            forall|i: int| end <= i < v.len() ==> is_ws(#[trigger] v@[i]),
        decreases end,
    {
        end = end - 1;
    }
    proof {
        let t = v@.skip(start as int);
        lemma_trim_end(t);
        let k = t.len() - trail_ws(t);
        assert forall|i: int| end - start <= i < t.len() implies is_ws(#[trigger] t[i]) by {
            assert(t[i] == v@[start + i]);
        }
        if k < end - start {
            assert(is_ws(t[end - start - 1]));
            assert(t[end - start - 1] == v@[end - 1]);
        }
        if end - start < k {
            assert(is_ws(t[k - 1]));
        }
        assert(t.take(k) == v@.subrange(start as int, end as int));
    }
    (start, end)
}

/// The trimmed text of `v`.
pub fn trim(v: &[char]) -> (r: Vec<char>)
    ensures
        r@ == trim_seq(v@),
{
    let (start, end) = trim_bounds(v);
    slice_vec(v, start, end)
}

/// A copy of `v[start..end]`.
pub fn slice_vec(v: &[char], start: usize, end: usize) -> (r: Vec<char>)
    requires
        start <= end <= v.len(),
    ensures
        r@ == v@.subrange(start as int, end as int),
{
    let mut r: Vec<char> = Vec::new();
    let mut i = start;
    while i < end
        invariant
            start <= i <= end <= v.len(),
            r@ == v@.subrange(start as int, i as int),
        decreases end - i,
    {
        r.push(v[i]);
        i = i + 1;
        assert(r@ == v@.subrange(start as int, i as int));
    }
    r
}

/// `needle` occurs in `hay` starting at `at`.
pub open spec fn occurs_at(hay: Seq<char>, needle: Seq<char>, at: int) -> bool {
    0 <= at && at + needle.len() <= hay.len() && hay.subrange(at, at + needle.len()) == needle
}

/// `str::contains` for a string pattern.
pub open spec fn contains_seq(hay: Seq<char>, needle: Seq<char>) -> bool {
    exists|at: int| occurs_at(hay, needle, at)
}

/// `str::starts_with`.
pub open spec fn starts_with_seq(s: Seq<char>, prefix: Seq<char>) -> bool {
    prefix.len() <= s.len() && s.take(prefix.len() as int) == prefix
}

/// `str::ends_with`.
pub open spec fn ends_with_seq(s: Seq<char>, suffix: Seq<char>) -> bool {
    suffix.len() <= s.len() && s.skip(s.len() - suffix.len()) == suffix
}

/// Whether `needle` occurs in `hay` at `at`.
pub fn matches_at(hay: &[char], needle: &[char], at: usize) -> (r: bool)
    ensures
        r == occurs_at(hay@, needle@, at as int),
{
    if at > hay.len() || needle.len() > hay.len() - at {
        return false;
    }
    let mut j: usize = 0;
    while j < needle.len()
        invariant
            j <= needle.len(),
            at + needle.len() <= hay.len(),
            forall|k: int| 0 <= k < j ==> hay@[at + k] == needle@[k],
        decreases needle.len() - j,
    {
        if hay[at + j] != needle[j] {
            assert(hay@.subrange(at as int, at + needle.len())[j as int] != needle@[j as int]);
            return false;
        }
        j = j + 1;
    }
    assert(hay@.subrange(at as int, at + needle.len()) =~= needle@);
    true
}

/// `str::contains`.
pub fn contains(hay: &[char], needle: &[char]) -> (r: bool)
    ensures
        r == contains_seq(hay@, needle@),
{
    let mut at: usize = 0;
    while at < hay.len()
        invariant
            at <= hay.len(),
            forall|k: int| 0 <= k < at ==> !occurs_at(hay@, needle@, k),
        decreases hay.len() - at,
    {
        if matches_at(hay, needle, at) {
            return true;
        }
        at = at + 1;
    }
    if matches_at(hay, needle, at) {
        return true;
    }
    assert forall|k: int| !occurs_at(hay@, needle@, k) by {
        if 0 <= k < at {
        }
    }
    false
}

/// `str::starts_with`.
pub fn starts_with(s: &[char], prefix: &[char]) -> (r: bool)
    ensures
        r == starts_with_seq(s@, prefix@),
{
    let r = matches_at(s, prefix, 0);
    proof {
        if prefix@.len() <= s@.len() {
            assert(s@.subrange(0, prefix@.len() as int) == s@.take(prefix@.len() as int));
        }
    }
    r
}

/// `str::ends_with`.
pub fn ends_with(s: &[char], suffix: &[char]) -> (r: bool)
    ensures
        r == ends_with_seq(s@, suffix@),
{
    if suffix.len() > s.len() {
        return false;
    }
    let r = matches_at(s, suffix, s.len() - suffix.len());
    proof {
        assert(s@.subrange(s@.len() - suffix@.len(), s@.len() as int) == s@.skip(
            s@.len() - suffix@.len(),
        ));
    }
    r
}

/// Whether `c` occurs in `s`.
pub fn has_char(s: &[char], c: char) -> (r: bool)
    ensures
        r == s@.contains(c),
{
    let mut i: usize = 0;
    while i < s.len()
        invariant
            i <= s.len(),
            forall|k: int| 0 <= k < i ==> s@[k] != c,
        decreases s.len() - i,
    {
        if s[i] == c {
            return true;
        }
        i = i + 1;
    }
    false
}


/// Index of the first `c` in `s`, if any.
pub open spec fn first_index_of(s: Seq<char>, c: char) -> Option<int>
    decreases s.len(),
{
    if s.len() == 0 {
        None
    } else if s[0] == c {
        Some(0)
    } else {
        match first_index_of(s.drop_first(), c) {
            Some(i) => Some(i + 1),
            None => None,
        }
    }
}

pub proof fn lemma_first_index_of(s: Seq<char>, c: char)
    ensures
        match first_index_of(s, c) {
            Some(i) => 0 <= i < s.len() && s[i] == c && forall|k: int| 0 <= k < i ==> s[k] != c,
            None => forall|k: int| 0 <= k < s.len() ==> s[k] != c,
        },
    decreases s.len(),
{
    if s.len() > 0 && s[0] != c {
        lemma_first_index_of(s.drop_first(), c);
        match first_index_of(s.drop_first(), c) {
            Some(i) => {
                assert forall|k: int| 0 <= k < i + 1 implies s[k] != c by {
                    if k > 0 {
                        assert(s[k] == s.drop_first()[k - 1]);
                    }
                }
            },
            None => {
                assert forall|k: int| 0 <= k < s.len() implies s[k] != c by {
                    if k > 0 {
                        assert(s[k] == s.drop_first()[k - 1]);
                    }
                }
            },
        }
    }
}

/// A line's text without a final `\r`.
pub open spec fn strip_cr(s: Seq<char>) -> Seq<char> {
    if s.len() > 0 && s.last() == '\r' {
        s.drop_last()
    } else {
        s
    }
}

/// `str::lines`: split on `\n`, a `\r` before the `\n` dropped, no empty
/// line after a final `\n`. The last line, with no `\n`, keeps a `\r`.
pub open spec fn lines_of(s: Seq<char>) -> Seq<Seq<char>>
    decreases s.len(),
{
    if s.len() == 0 {
        seq![]
    } else {
        match first_index_of(s, '\n') {
            Some(i) => {
                if 0 <= i < s.len() {
                    seq![strip_cr(s.take(i))] + lines_of(s.skip(i + 1))
                } else {
                    seq![]
                }
            },
            None => seq![s],
        }
    }
}

/// The lines of `v`, as `str::lines` splits them.
pub fn split_lines(v: &[char]) -> (r: Vec<Vec<char>>)
    ensures
        r@.len() == lines_of(v@).len(),
        forall|i: int| 0 <= i < r@.len() ==> (#[trigger] r@[i])@ == lines_of(v@)[i],
{
    let mut r: Vec<Vec<char>> = Vec::new();
    let mut start: usize = 0;
    let mut i: usize = 0;
    proof {
        assert(v@.skip(0) == v@);
    }
    while i < v.len()
        invariant
            start <= i <= v.len(),
            forall|k: int| start <= k < i ==> v@[k] != '\n',
            lines_of(v@) == r@.map_values(|l: Vec<char>| l@) + lines_of(v@.skip(start as int)),
        decreases v.len() - i,
    {
        if v[i] == '\n' {
            let mut end = i;
            if end > start && v[end - 1] == '\r' {
                end = end - 1;
            }
            let line = slice_vec(v, start, end);
            proof {
                let rest = v@.skip(start as int);
                lemma_first_index_of(rest, '\n');
                let j = (i - start) as int;
                assert(rest[j] == '\n');
                assert forall|k: int| 0 <= k < j implies rest[k] != '\n' by {
                    assert(rest[k] == v@[start + k]);
                }
                assert(first_index_of(rest, '\n') == Some(j)) by {
                    match first_index_of(rest, '\n') {
                        Some(m) => {
                            if m < j {
                                assert(rest[m] != '\n');
                            }
                            if m > j {
                                assert(rest[j] != '\n');
                            }
                        },
                        None => {
                            assert(rest[j] != '\n');
                        },
                    }
                }
                assert(rest.take(j) == v@.subrange(start as int, i as int));
                assert(strip_cr(rest.take(j)) == line@);
                assert(rest.skip(j + 1) == v@.skip(i + 1));
                let old_r = r@.map_values(|l: Vec<char>| l@);
                assert(lines_of(rest) == seq![line@] + lines_of(v@.skip(i + 1)));
                assert(r@.push(line).map_values(|l: Vec<char>| l@) == old_r.push(line@));
                assert(old_r + (seq![line@] + lines_of(v@.skip(i + 1))) == old_r.push(line@)
                    + lines_of(v@.skip(i + 1)));
            }
            r.push(line);
            start = i + 1;
        }
        i = i + 1;
    }
    proof {
        let rest = v@.skip(start as int);
        if rest.len() > 0 {
            lemma_first_index_of(rest, '\n');
            assert forall|k: int| 0 <= k < rest.len() implies rest[k] != '\n' by {
                assert(rest[k] == v@[start + k]);
            }
            match first_index_of(rest, '\n') {
                Some(m) => {
                    assert(rest[m] != '\n');
                },
                None => {},
            }
        }
    }
    if start < v.len() {
        let line = slice_vec(v, start, v.len());
        proof {
            let rest = v@.skip(start as int);
            assert(line@ == rest);
            assert(lines_of(rest) == seq![rest]);
            let old_r = r@.map_values(|l: Vec<char>| l@);
            assert(r@.push(line).map_values(|l: Vec<char>| l@) == old_r.push(line@));
            assert(old_r + seq![rest] == old_r.push(line@));
        }
        r.push(line);
    } else {
        proof {
            assert(v@.skip(start as int).len() == 0);
            assert(r@.map_values(|l: Vec<char>| l@) + seq![] == r@.map_values(|l: Vec<char>| l@));
        }
    }
    proof {
        assert forall|i: int| 0 <= i < r@.len() implies (#[trigger] r@[i])@ == lines_of(v@)[i] by {
            assert(r@.map_values(|l: Vec<char>| l@)[i] == r@[i]@);
        }
    }
    r
}


/// Index of the first whitespace character of `s`, or its length.
pub open spec fn first_ws(s: Seq<char>) -> nat
    decreases s.len(),
{
    if s.len() == 0 || is_ws(s[0]) {
        0
    } else {
        1 + first_ws(s.drop_first())
    }
}

pub proof fn lemma_first_ws(s: Seq<char>)
    ensures
        first_ws(s) <= s.len(),
        forall|i: int| 0 <= i < first_ws(s) ==> !is_ws(#[trigger] s[i]),
        first_ws(s) < s.len() ==> is_ws(s[first_ws(s) as int]),
    decreases s.len(),
{
    if s.len() > 0 && !is_ws(s[0]) {
        lemma_first_ws(s.drop_first());
        assert forall|i: int| 0 <= i < first_ws(s) implies !is_ws(#[trigger] s[i]) by {
            if i > 0 {
                assert(s[i] == s.drop_first()[i - 1]);
            }
        }
    }
}

/// `str::split_whitespace`: the maximal runs of non-whitespace characters.
pub open spec fn words_of(s: Seq<char>) -> Seq<Seq<char>>
    decreases s.len(),
{
    let t = s.skip(lead_ws(s) as int);
    if lead_ws(s) >= s.len() {
        seq![]
    } else {
        let k = first_ws(t);
        if k == 0 {
            seq![]
        } else {
            proof {
                lemma_trim_start(s);
                lemma_first_ws(t);
            }
            seq![t.take(k as int)] + words_of(t.skip(k as int))
        }
    }
}

/// The words of `v`, as `str::split_whitespace` gives them.
pub fn split_words(v: &[char]) -> (r: Vec<Vec<char>>)
    ensures
        r@.len() == words_of(v@).len(),
        forall|i: int| 0 <= i < r@.len() ==> (#[trigger] r@[i])@ == words_of(v@)[i],
{
    let mut r: Vec<Vec<char>> = Vec::new();
    let mut pos: usize = 0;
    proof {
        assert(v@.skip(0) == v@);
    }
    while pos < v.len()
        invariant
            pos <= v.len(),
            words_of(v@) == r@.map_values(|l: Vec<char>| l@) + words_of(v@.skip(pos as int)),
        decreases v.len() - pos,
    {
        let ghost rest = v@.skip(pos as int);
        let mut start = pos;
        while start < v.len() && is_whitespace(v[start])
            invariant
                pos <= start <= v.len(),
                forall|k: int| pos <= k < start ==> is_ws(#[trigger] v@[k]),
            decreases v.len() - start,
        {
            start = start + 1;
        }
        proof {
            lemma_trim_start(rest);
            let l = lead_ws(rest);
            if l < start - pos {
                assert(is_ws(rest[l as int]));
                assert(rest[l as int] == v@[pos + l]);
            }
            if start - pos < l {
                assert(is_ws(rest[(start - pos) as int]));
            }
            assert(l == start - pos);
        }
        if start == v.len() {
            proof {
                assert(words_of(rest) == Seq::<Seq<char>>::empty());
                assert(v@.skip(v.len() as int) == Seq::<char>::empty());
                assert(words_of(Seq::<char>::empty()) == Seq::<Seq<char>>::empty());
            }
            pos = start;
        } else {
            let mut end = start;
            while end < v.len() && !is_whitespace(v[end])
                invariant
                    start <= end <= v.len(),
                    forall|k: int| start <= k < end ==> !is_ws(#[trigger] v@[k]),
                decreases v.len() - end,
            {
                end = end + 1;
            }
            let word = slice_vec(v, start, end);
            proof {
                let t = rest.skip(lead_ws(rest) as int);
                assert(t == v@.skip(start as int));
                lemma_first_ws(t);
                let k = first_ws(t);
                if k < end - start {
                    assert(is_ws(t[k as int]));
                    assert(t[k as int] == v@[start + k]);
                }
                if end - start < k {
                    assert(t[(end - start) as int] == v@[end as int]);
                    assert(!is_ws(t[(end - start) as int]));
                }
                assert(k == end - start);
                assert(!is_ws(v@[start as int]));
                assert(t.take(k as int) == word@);
                assert(t.skip(k as int) == v@.skip(end as int));
                let old_r = r@.map_values(|l: Vec<char>| l@);
                assert(words_of(rest) == seq![word@] + words_of(v@.skip(end as int)));
                assert(r@.push(word).map_values(|l: Vec<char>| l@) == old_r.push(word@));
                assert(old_r + (seq![word@] + words_of(v@.skip(end as int))) == old_r.push(word@)
                    + words_of(v@.skip(end as int)));
            }
            r.push(word);
            pos = end;
        }
    }
    proof {
        assert(v@.skip(pos as int) == Seq::<char>::empty());
        assert(words_of(Seq::<char>::empty()) == Seq::<Seq<char>>::empty());
        assert(r@.map_values(|l: Vec<char>| l@) + Seq::<Seq<char>>::empty() == r@.map_values(
            |l: Vec<char>| l@,
        ));
        assert forall|i: int| 0 <= i < r@.len() implies (#[trigger] r@[i])@ == words_of(v@)[i] by {
            assert(r@.map_values(|l: Vec<char>| l@)[i] == r@[i]@);
        }
    }
    r
}

/// Number of occurrences of `c` in `s`.
pub open spec fn count_char(s: Seq<char>, c: char) -> nat
    decreases s.len(),
{
    if s.len() == 0 {
        0
    } else {
        (if s.last() == c { 1nat } else { 0nat }) + count_char(s.drop_last(), c)
    }
}

/// Count the occurrences of `c` in `v`.
pub fn count_of(v: &[char], c: char) -> (r: usize)
    ensures
        r == count_char(v@, c),
{
    let mut n: usize = 0;
    let mut i: usize = 0;
    while i < v.len()
        invariant
            i <= v.len(),
            n == count_char(v@.take(i as int), c),
            n <= i,
        decreases v.len() - i,
    {
        assert(v@.take(i + 1).drop_last() == v@.take(i as int));
        if v[i] == c {
            n = n + 1;
        }
        i = i + 1;
    }
    assert(v@.take(v.len() as int) == v@);
    n
}

/// The Unicode lowercase mapping of `s`, as `str::to_lowercase` gives it.
pub uninterp spec fn lowercase(s: Seq<char>) -> Seq<char>;

/// Trusted: std's `str::to_lowercase`, a function of its argument alone
/// (Unicode's lowercase mapping), named `lowercase`.
#[verifier::external_body]
pub(crate) fn to_lowercase(s: &str) -> (r: String)
    ensures
        r@ == lowercase(s@),
{
    s.to_lowercase()
}

} // verus!
