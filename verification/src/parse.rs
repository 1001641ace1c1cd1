//! Single-line parsers for the line-oriented formats.

use vstd::prelude::*;
use crate::text::{chars_of, is_whitespace, is_ws, string_of, slice_vec};
use crate::value::{JVal, JsonValue, lemma_view_obj, wf_json};

verus! {

/// What an escape `\c` inside a quoted value stands for.
pub open spec fn escape_of(c: char) -> Seq<char> {
    if c == '"' {
        seq!['"']
    } else if c == '\\' {
        seq!['\\']
    } else if c == 'n' {
        seq!['\n']
    } else if c == 't' {
        seq!['\t']
    } else if c == 'r' {
        seq!['\r']
    } else {
        seq!['\\', c]
    }
}

/// End of a key starting at `i`: the first `=` or whitespace at or after
/// `i`.
pub open spec fn key_end(s: Seq<char>, i: int) -> Option<int>
    decreases s.len() - i,
{
    if i < 0 || i >= s.len() {
        None
    } else if s[i] == '=' || is_ws(s[i]) {
        Some(i)
    } else {
        key_end(s, i + 1)
    }
}

/// The key starting at `i` and the position after its `=`; `None` unless
/// the token is a non-empty `key=`.
pub open spec fn read_key(s: Seq<char>, i: int) -> Option<(Seq<char>, int)> {
    match key_end(s, i) {
        Some(j) => if s[j] == '=' && j > i {
            Some((s.subrange(i, j), j + 1))
        } else {
            None
        },
        None => None,
    }
}

/// A `"…"` value read from `i`, after its opening quote: the text and the
/// position after the closing quote.
pub open spec fn read_quoted(s: Seq<char>, i: int, acc: Seq<char>) -> (Seq<char>, int)
    decreases s.len() - i,
{
    if i < 0 || i >= s.len() {
        (acc, s.len() as int)
    } else if s[i] == '"' {
        (acc, i + 1)
    } else if s[i] == '\\' {
        if i + 1 < s.len() {
            read_quoted(s, i + 2, acc + escape_of(s[i + 1]))
        } else {
            (acc, i + 1)
        }
    } else {
        read_quoted(s, i + 1, acc.push(s[i]))
    }
}

/// A `\"…\"` value read from `i`, after its opening `\"`; an unclosed value
/// runs to the end of the line.
pub open spec fn read_escaped_quoted(s: Seq<char>, i: int, acc: Seq<char>) -> (Seq<char>, int)
    decreases s.len() - i,
{
    if i < 0 || i >= s.len() {
        (acc, s.len() as int)
    } else if s[i] != '\\' {
        read_escaped_quoted(s, i + 1, acc.push(s[i]))
    } else if i + 1 < s.len() && s[i + 1] == '"' {
        (acc, i + 2)
    } else if i + 1 < s.len() {
        read_escaped_quoted(s, i + 2, acc + escape_of(s[i + 1]))
    } else {
        (acc, i + 1)
    }
}

/// End of a bare value: the first whitespace at or after `i`.
pub open spec fn bare_end(s: Seq<char>, i: int) -> int
    decreases s.len() - i,
{
    if i < 0 || i >= s.len() || is_ws(s[i]) {
        if i < 0 {
            0
        } else if i > s.len() {
            s.len() as int
        } else {
            i
        }
    } else {
        bare_end(s, i + 1)
    }
}

/// The value starting at `i`: escaped-quoted, quoted or bare.
pub open spec fn read_value(s: Seq<char>, i: int) -> (Seq<char>, int) {
    if 0 <= i && i + 1 < s.len() && s[i] == '\\' && s[i + 1] == '"' {
        read_escaped_quoted(s, i + 2, seq![])
    } else if 0 <= i < s.len() && s[i] == '"' {
        read_quoted(s, i + 1, seq![])
    } else {
        (s.subrange(i, bare_end(s, i)), bare_end(s, i))
    }
}

pub proof fn lemma_quoted_end(s: Seq<char>, i: int, acc: Seq<char>)
    requires
        0 <= i <= s.len(),
    ensures
        read_quoted(s, i, acc).1 >= i,
    decreases s.len() - i,
{
    if i < s.len() && s[i] != '"' {
        if s[i] == '\\' {
            if i + 1 < s.len() {
                lemma_quoted_end(s, i + 2, acc + escape_of(s[i + 1]));
            }
        } else {
            lemma_quoted_end(s, i + 1, acc.push(s[i]));
        }
    }
}

pub proof fn lemma_escaped_end(s: Seq<char>, i: int, acc: Seq<char>)
    requires
        0 <= i <= s.len(),
    ensures
        read_escaped_quoted(s, i, acc).1 >= i,
    decreases s.len() - i,
{
    if i < s.len() {
        if s[i] != '\\' {
            lemma_escaped_end(s, i + 1, acc.push(s[i]));
        } else if i + 1 < s.len() && s[i + 1] != '"' {
            lemma_escaped_end(s, i + 2, acc + escape_of(s[i + 1]));
        }
    }
}

pub proof fn lemma_bare_end(s: Seq<char>, i: int)
    requires
        0 <= i <= s.len(),
    ensures
        i <= bare_end(s, i) <= s.len(),
    decreases s.len() - i,
{
    if i < s.len() && !is_ws(s[i]) {
        lemma_bare_end(s, i + 1);
    }
}

pub proof fn lemma_value_end(s: Seq<char>, i: int)
    requires
        0 <= i <= s.len(),
    ensures
        i <= read_value(s, i).1 <= s.len(),
{
    if 0 <= i && i + 1 < s.len() && s[i] == '\\' && s[i + 1] == '"' {
        lemma_escaped_end(s, i + 2, seq![]);
        lemma_escaped_bound(s, i + 2, seq![]);
    } else if 0 <= i < s.len() && s[i] == '"' {
        lemma_quoted_end(s, i + 1, seq![]);
        lemma_quoted_bound(s, i + 1, seq![]);
    } else {
        lemma_bare_end(s, i);
    }
}

pub proof fn lemma_key_end(s: Seq<char>, i: int)
    requires
        0 <= i,
    ensures
        key_end(s, i) matches Some(j) ==> i <= j < s.len(),
    decreases s.len() - i,
{
    if 0 <= i < s.len() && !(s[i] == '=' || is_ws(s[i])) {
        lemma_key_end(s, i + 1);
    }
}

/// The `key=value` pairs of a line from `i`, in order; `None` when a token
/// is not `key=value`.
pub open spec fn logfmt_pairs(s: Seq<char>, i: int) -> Option<Seq<(Seq<char>, Seq<char>)>>
    decreases s.len() - i,
{
    if i < 0 || i >= s.len() {
        Some(seq![])
    } else if is_ws(s[i]) {
        logfmt_pairs(s, i + 1)
    } else {
        match read_key(s, i) {
            None => None,
            Some((key, p)) => {
                proof {
                    lemma_key_end(s, i);
                    let j = key_end(s, i)->Some_0;
                    assert(p == j + 1);
                    lemma_value_end(s, p);
                }
                let (value, q) = read_value(s, p);
                match logfmt_pairs(s, q) {
                    None => None,
                    Some(rest) => Some(seq![(key, value)] + rest),
                }
            },
        }
    }
}

/// The position of `key` among `keys`, if it is there.
pub open spec fn key_position(keys: Seq<Seq<char>>, key: Seq<char>) -> Option<int> {
    if exists|i: int| 0 <= i < keys.len() && keys[i] == key {
        Some(choose|i: int| 0 <= i < keys.len() && keys[i] == key)
    } else {
        None
    }
}

/// Members after setting `key` to `value`: an existing key keeps its place
/// and takes the value, a new key goes last.
pub open spec fn insert_member(
    members: (Seq<Seq<char>>, Seq<Seq<char>>),
    key: Seq<char>,
    value: Seq<char>,
) -> (Seq<Seq<char>>, Seq<Seq<char>>) {
    match key_position(members.0, key) {
        Some(i) => (members.0, members.1.update(i, value)),
        None => (members.0.push(key), members.1.push(value)),
    }
}

/// The members built by inserting `pairs` in order.
pub open spec fn members_of(pairs: Seq<(Seq<char>, Seq<char>)>) -> (Seq<Seq<char>>, Seq<Seq<char>>)
    decreases pairs.len(),
{
    if pairs.len() == 0 {
        (seq![], seq![])
    } else {
        let m = members_of(pairs.drop_last());
        insert_member(m, pairs.last().0, pairs.last().1)
    }
}

/// An object of string values, as `parse_logfmt` builds it.
pub open spec fn string_object(members: (Seq<Seq<char>>, Seq<Seq<char>>)) -> JVal {
    JVal::Obj(members.0, members.1.map_values(|v: Seq<char>| JVal::Str(v)))
}

/// What `parse_logfmt` returns for a line.
pub open spec fn logfmt_spec(s: Seq<char>) -> Option<JVal> {
    match logfmt_pairs(s, 0) {
        Some(pairs) => if members_of(pairs).0.len() > 0 {
            Some(string_object(members_of(pairs)))
        } else {
            None
        },
        None => None,
    }
}

/// Inserting members keeps keys and values side by side.
pub proof fn lemma_members_len(pairs: Seq<(Seq<char>, Seq<char>)>)
    ensures
        members_of(pairs).0.len() == members_of(pairs).1.len(),
    decreases pairs.len(),
{
    if pairs.len() > 0 {
        lemma_members_len(pairs.drop_last());
    }
}

/// A logfmt line's value is well-formed.
pub proof fn lemma_logfmt_wf(s: Seq<char>)
    ensures
        logfmt_spec(s) matches Some(v) ==> wf_json(v),
{
    if let Some(pairs) = logfmt_pairs(s, 0) {
        lemma_members_len(pairs);
        let m = members_of(pairs);
        let vals = m.1.map_values(|v: Seq<char>| JVal::Str(v));
        assert forall|k: int| 0 <= k < vals.len() implies wf_json(#[trigger] vals[k]) by {
            assert(vals[k] == JVal::Str(m.1[k]));
        }
    }
}

/// `v` written inside a quoted logfmt value: a backslash before each quote
/// and each backslash, every other character as it is.
pub open spec fn quote_escaped(v: Seq<char>) -> Seq<char>
    decreases v.len(),
{
    if v.len() == 0 {
        Seq::empty()
    } else {
        let c = v[0];
        (if c == '"' || c == '\\' {
            seq!['\\', c]
        } else {
            seq![c]
        }) + quote_escaped(v.drop_first())
    }
}

/// Reading a quoted value decodes what escaping wrote: from just after the
/// opening quote, the escaped text of `v` followed by a closing quote reads
/// back as `v`, and reading resumes after that quote.
pub proof fn lemma_read_quoted_escaped(p: Seq<char>, v: Seq<char>, tail: Seq<char>, acc: Seq<char>)
    ensures
        read_quoted(p + quote_escaped(v) + seq!['"'] + tail, p.len() as int, acc) == (
            acc + v,
            (p.len() + quote_escaped(v).len() + 1) as int,
        ),
    decreases v.len(),
{
    let s = p + quote_escaped(v) + seq!['"'] + tail;
    let i = p.len() as int;
    if v.len() == 0 {
        assert(s[i] == '"');
        assert(acc + v =~= acc);
    } else {
        let c = v[0];
        let rest = v.drop_first();
        assert(v =~= seq![c] + rest);
        if c == '"' || c == '\\' {
            let p2 = p + seq!['\\', c];
            assert(quote_escaped(v) == seq!['\\', c] + quote_escaped(rest));
            assert(s =~= p2 + quote_escaped(rest) + seq!['"'] + tail);
            assert(s[i] == '\\' && s[i + 1] == c);
            assert(escape_of(c) == seq![c]);
            lemma_read_quoted_escaped(p2, rest, tail, acc + seq![c]);
            assert(acc + seq![c] + rest =~= acc + v);
        } else {
            let p2 = p + seq![c];
            assert(quote_escaped(v) == seq![c] + quote_escaped(rest));
            assert(s =~= p2 + quote_escaped(rest) + seq!['"'] + tail);
            assert(s[i] == c);
            lemma_read_quoted_escaped(p2, rest, tail, acc.push(c));
            assert(acc.push(c) + rest =~= acc + v);
        }
    }
}

proof fn lemma_key_end_at(s: Seq<char>, i: int, j: int)
    requires
        0 <= i <= j < s.len(),
        s[j] == '=',
        forall|m: int| i <= m < j ==> #[trigger] s[m] != '=' && !is_ws(s[m]),
    ensures
        key_end(s, i) == Some(j),
    decreases j - i,
{
    if i < j {
        lemma_key_end_at(s, i + 1, j);
    }
}

/// A line holding one pair `key="value"`, the value escaped, reads as an
/// object mapping the key to the value itself: an escaped quote inside a
/// quoted value stands for a quote, an escaped backslash for a backslash.
pub proof fn lemma_logfmt_quoted_pair(k: Seq<char>, v: Seq<char>)
    requires
        k.len() > 0,
        forall|m: int| 0 <= m < k.len() ==> #[trigger] k[m] != '=' && !is_ws(k[m]),
    ensures
        logfmt_spec(k + seq!['=', '"'] + quote_escaped(v) + seq!['"']) == Some(
            JVal::Obj(seq![k], seq![JVal::Str(v)]),
        ),
{
    let s = k + seq!['=', '"'] + quote_escaped(v) + seq!['"'];
    let n = k.len() as int;
    assert(forall|m: int| 0 <= m < n ==> s[m] == k[m]);
    assert(s[n] == '=');
    assert(s[n + 1] == '"');
    lemma_key_end_at(s, 0, n);
    assert(s.subrange(0, n) =~= k);
    assert(read_key(s, 0) == Some((k, n + 1)));
    let pre = k + seq!['=', '"'];
    assert(s =~= pre + quote_escaped(v) + seq!['"'] + Seq::<char>::empty());
    lemma_read_quoted_escaped(pre, v, Seq::empty(), Seq::empty());
    assert(Seq::<char>::empty() + v =~= v);
    assert(read_value(s, n + 1) == (v, s.len() as int));
    assert(!is_ws(s[0]));
    assert(logfmt_pairs(s, s.len() as int) == Some(Seq::<(Seq<char>, Seq<char>)>::empty()));
    assert(logfmt_pairs(s, 0) == Some(seq![(k, v)] + Seq::<(Seq<char>, Seq<char>)>::empty()));
    let pairs = seq![(k, v)];
    assert(seq![(k, v)] + Seq::<(Seq<char>, Seq<char>)>::empty() =~= pairs);
    assert(pairs.drop_last() =~= Seq::<(Seq<char>, Seq<char>)>::empty());
    assert(members_of(pairs.drop_last()) == (Seq::<Seq<char>>::empty(), Seq::<Seq<char>>::empty()));
    assert(key_position(Seq::<Seq<char>>::empty(), k) is None);
    assert(members_of(pairs) == (seq![k], seq![v]));
    assert(seq![v].map_values(|x: Seq<char>| JVal::Str(x)) =~= seq![JVal::Str(v)]);
}

fn push_escape(value: &mut Vec<char>, escaped: char)
    ensures
        final(value)@ == old(value)@ + escape_of(escaped),
{
    if escaped == '"' {
        value.push('"');
    } else if escaped == '\\' {
        value.push('\\');
    } else if escaped == 'n' {
        value.push('\n');
    } else if escaped == 't' {
        value.push('\t');
    } else if escaped == 'r' {
        value.push('\r');
    } else {
        value.push('\\');
        value.push(escaped);
    }
    assert(final(value)@ =~= old(value)@ + escape_of(escaped));
}

fn read_key_exec(s: &Vec<char>, i: usize) -> (r: Option<(Vec<char>, usize)>)
    requires
        i <= s.len(),
    ensures
        match r {
            Some((k, p)) => read_key(s@, i as int) == Some((k@, p as int)),
            None => read_key(s@, i as int) is None,
        },
{
    let mut j = i;
    while j < s.len() && !(s[j] == '=' || is_whitespace(s[j]))
        invariant
            i <= j <= s.len(),
            key_end(s@, i as int) == key_end(s@, j as int),
        decreases s.len() - j,
    {
        j = j + 1;
    }
    if j < s.len() && s[j] == '=' && j > i {
        Some((slice_vec(s, i, j), j + 1))
    } else {
        None
    }
}

fn read_quoted_exec(s: &Vec<char>, i: usize) -> (r: (Vec<char>, usize))
    requires
        i <= s.len(),
    ensures
        read_quoted(s@, i as int, seq![]) == (r.0@, r.1 as int),
{
    let mut acc: Vec<char> = Vec::new();
    let mut j = i;
    while j < s.len()
        invariant
            i <= j <= s.len(),
            read_quoted(s@, i as int, seq![]) == read_quoted(s@, j as int, acc@),
        decreases s.len() - j,
    {
        let c = s[j];
        if c == '"' {
            return (acc, j + 1);
        } else if c == '\\' {
            if j + 1 < s.len() {
                push_escape(&mut acc, s[j + 1]);
                j = j + 2;
            } else {
                return (acc, j + 1);
            }
        } else {
            acc.push(c);
            j = j + 1;
        }
    }
    (acc, s.len())
}

fn read_escaped_quoted_exec(s: &Vec<char>, i: usize) -> (r: (Vec<char>, usize))
    requires
        i <= s.len(),
    ensures
        read_escaped_quoted(s@, i as int, seq![]) == (r.0@, r.1 as int),
{
    let mut acc: Vec<char> = Vec::new();
    let mut j = i;
    while j < s.len()
        invariant
            i <= j <= s.len(),
            read_escaped_quoted(s@, i as int, seq![]) == read_escaped_quoted(s@, j as int, acc@),
        decreases s.len() - j,
    {
        let c = s[j];
        if c != '\\' {
            acc.push(c);
            j = j + 1;
        } else if j + 1 < s.len() && s[j + 1] == '"' {
            return (acc, j + 2);
        } else if j + 1 < s.len() {
            push_escape(&mut acc, s[j + 1]);
            j = j + 2;
        } else {
            return (acc, j + 1);
        }
    }
    (acc, s.len())
}

fn read_value_exec(s: &Vec<char>, i: usize) -> (r: (Vec<char>, usize))
    requires
        i <= s.len(),
    ensures
        read_value(s@, i as int) == (r.0@, r.1 as int),
        r.1 <= s.len(),
{
    proof {
        lemma_value_end(s@, i as int);
    }
    if i < s.len() && s[i] == '\\' && i + 1 < s.len() && s[i + 1] == '"' {
        proof {
            lemma_escaped_bound(s@, (i + 2) as int, seq![]);
        }
        read_escaped_quoted_exec(s, i + 2)
    } else if i < s.len() && s[i] == '"' {
        proof {
            lemma_quoted_bound(s@, (i + 1) as int, seq![]);
        }
        read_quoted_exec(s, i + 1)
    } else {
        let mut j = i;
        while j < s.len() && !is_whitespace(s[j])
            invariant
                i <= j <= s.len(),
                bare_end(s@, i as int) == bare_end(s@, j as int),
            decreases s.len() - j,
        {
            j = j + 1;
        }
        (slice_vec(s, i, j), j)
    }
}

pub proof fn lemma_quoted_bound(s: Seq<char>, i: int, acc: Seq<char>)
    requires
        0 <= i <= s.len(),
    ensures
        read_quoted(s, i, acc).1 <= s.len(),
    decreases s.len() - i,
{
    if i < s.len() && s[i] != '"' {
        if s[i] == '\\' {
            if i + 1 < s.len() {
                lemma_quoted_bound(s, i + 2, acc + escape_of(s[i + 1]));
            }
        } else {
            lemma_quoted_bound(s, i + 1, acc.push(s[i]));
        }
    }
}

pub proof fn lemma_escaped_bound(s: Seq<char>, i: int, acc: Seq<char>)
    requires
        0 <= i <= s.len(),
    ensures
        read_escaped_quoted(s, i, acc).1 <= s.len(),
    decreases s.len() - i,
{
    if i < s.len() {
        if s[i] != '\\' {
            lemma_escaped_bound(s, i + 1, acc.push(s[i]));
        } else if i + 1 < s.len() && s[i + 1] != '"' {
            lemma_escaped_bound(s, i + 2, acc + escape_of(s[i + 1]));
        }
    }
}


/// Keys with no repeats.
pub open spec fn distinct(keys: Seq<Seq<char>>) -> bool {
    forall|i: int, j: int| 0 <= i < keys.len() && 0 <= j < keys.len() && i != j ==> keys[i] != keys[j]
}

pub proof fn lemma_members_wf(pairs: Seq<(Seq<char>, Seq<char>)>)
    ensures
        distinct(members_of(pairs).0),
        members_of(pairs).0.len() == members_of(pairs).1.len(),
    decreases pairs.len(),
{
    if pairs.len() > 0 {
        lemma_members_wf(pairs.drop_last());
        let m = members_of(pairs.drop_last());
        let k = pairs.last().0;
        match key_position(m.0, k) {
            Some(i) => {},
            None => {
                let ks = m.0.push(k);
                assert forall|a: int, b: int| 0 <= a < ks.len() && 0 <= b < ks.len() && a != b implies ks[a] != ks[b] by {
                    if a == m.0.len() {
                        assert(ks[b] == m.0[b]);
                    } else if b == m.0.len() {
                        assert(ks[a] == m.0[a]);
                    }
                }
            },
        }
    }
}

/// Parse one logfmt line into an object of string values.
///
/// Every whitespace-separated token must be `key=value`: a key holding
/// whitespace, an empty key or a token without `=` rejects the line. Values
/// may be bare, `"quoted"` or `\"escaped-quoted\"`. A repeated key keeps its
/// first place and its last value.
pub fn parse_logfmt(line: &str) -> (r: Option<JsonValue>)
    ensures
        match r {
            Some(v) => logfmt_spec(line@) == Some(v@),
            None => logfmt_spec(line@) is None,
        },
{
    let s = chars_of(line);
    let mut keys: Vec<String> = Vec::new();
    let mut values: Vec<String> = Vec::new();
    let ghost mut done: Seq<(Seq<char>, Seq<char>)> = seq![];
    let mut i: usize = 0;
    while i < s.len()
        invariant
            i <= s.len(),
            s@ == line@,
            logfmt_pairs(s@, 0) == match logfmt_pairs(s@, i as int) {
                Some(rest) => Some(done + rest),
                None => None::<Seq<(Seq<char>, Seq<char>)>>,
            },
            keys@.len() == values@.len(),
            keys@.len() == members_of(done).0.len(),
            members_of(done).0.len() == members_of(done).1.len(),
            forall|k: int| 0 <= k < keys@.len() ==> (#[trigger] keys@[k])@ == members_of(done).0[k],
            forall|k: int| 0 <= k < values@.len() ==> (#[trigger] values@[k])@ == members_of(done).1[k],
        decreases s.len() - i,
    {
        if is_whitespace(s[i]) {
            i = i + 1;
            continue;
        }
        let (key, p) = match read_key_exec(&s, i) {
            Some(kp) => kp,
            None => {
                return None;
            },
        };
        proof {
            lemma_key_end(s@, i as int);
            let j = key_end(s@, i as int)->Some_0;
            assert(p == j + 1);
        }
        let (value, q) = read_value_exec(&s, p);
        proof {
            lemma_value_end(s@, p as int);
            lemma_members_wf(done);
        }
        let key_s = string_of(key.as_slice());
        let value_s = string_of(value.as_slice());
        let ghost m = members_of(done);
        let mut k: usize = 0;
        while k < keys.len() && keys[k] != key_s
            invariant
                k <= keys.len(),
                key_s@ == key@,
                keys@.len() == m.0.len(),
                forall|j: int| 0 <= j < keys@.len() ==> (#[trigger] keys@[j])@ == m.0[j],
                forall|j: int| 0 <= j < k ==> m.0[j] != key@,
            decreases keys.len() - k,
        {
            k = k + 1;
        }
        let found = k < keys.len();
        proof {
            let pairs_next = done.push((key@, value@));
            assert(pairs_next.drop_last() == done);
            if found {
                assert(keys@[k as int]@ == key@);
                assert(m.0[k as int] == key@);
                assert(key_position(m.0, key@) == Some(k as int)) by {
                    assert(distinct(m.0));
                }
            } else {
                assert(key_position(m.0, key@) is None);
            }
        }
        if found {
            values.set(k, value_s);
        } else {
            keys.push(key_s);
            values.push(value_s);
        }
        proof {
            let rest = logfmt_pairs(s@, q as int);
            assert(logfmt_pairs(s@, i as int) == match rest {
                Some(r) => Some(seq![(key@, value@)] + r),
                None => None::<Seq<(Seq<char>, Seq<char>)>>,
            });
            if let Some(r) = rest {
                assert(done + (seq![(key@, value@)] + r) == done.push((key@, value@)) + r);
            }
            done = done.push((key@, value@));
            lemma_members_wf(done);
        }
        i = q;
    }
    proof {
        assert(logfmt_pairs(s@, i as int) == Some(Seq::<(Seq<char>, Seq<char>)>::empty()));
        assert(done + Seq::<(Seq<char>, Seq<char>)>::empty() == done);
    }
    if keys.len() == 0 {
        return None;
    }
    let mut vals: Vec<JsonValue> = Vec::new();
    let mut k: usize = 0;
    while k < values.len()
        invariant
            k <= values.len(),
            vals.len() == k,
            forall|m: int| 0 <= m < k ==> (#[trigger] vals@[m])@ == JVal::Str(values@[m]@),
        decreases values.len() - k,
    {
        vals.push(JsonValue::Str(values[k].clone()));
        k = k + 1;
    }
    let r = JsonValue::Object(keys, vals);
    proof {
        lemma_view_obj(&r);
        let m = members_of(done);
        assert(r@->Obj_0 =~= m.0);
        assert forall|j: int| 0 <= j < m.1.len() implies r@->Obj_1[j] == m.1.map_values(|v: Seq<char>| JVal::Str(v))[j] by {
            assert(r@->Obj_1[j] == vals@[j]@);
        }
        assert(r@->Obj_1 =~= m.1.map_values(|v: Seq<char>| JVal::Str(v)));
    }
    Some(r)
}

} // verus!
