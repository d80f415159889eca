//! Character-level text model: whitespace, trimming, splitting and joining,
//! stated over `Seq<char>` and implemented over `Vec<char>`.
use vstd::prelude::*;

verus! {

/// `char::is_whitespace`: the Unicode `White_Space` property.
pub open spec fn is_ws(c: char) -> bool {
    let u = c as u32;
    ||| u == 0x20
    ||| (0x09 <= u && u <= 0x0d)
    ||| u == 0x85
    ||| u == 0xa0
    ||| u == 0x1680
    ||| (0x2000 <= u && u <= 0x200a)
    ||| u == 0x2028
    ||| u == 0x2029
    ||| u == 0x202f
    ||| u == 0x205f
    ||| u == 0x3000
}

pub fn is_whitespace(c: char) -> (r: bool)
    ensures
        r == is_ws(c),
{
    let u = c as u32;
    u == 0x20 || (0x09 <= u && u <= 0x0d) || u == 0x85 || u == 0xa0 || u == 0x1680 || (0x2000
        <= u && u <= 0x200a) || u == 0x2028 || u == 0x2029 || u == 0x202f || u == 0x205f || u
        == 0x3000
}

/// `str::trim_start`.
pub open spec fn trim_start(s: Seq<char>) -> Seq<char>
    decreases s.len(),
{
    if s.len() > 0 && is_ws(s[0]) {
        trim_start(s.drop_first())
    } else {
        s
    }
}

/// `str::trim_end`.
pub open spec fn trim_end(s: Seq<char>) -> Seq<char>
    decreases s.len(),
{
    if s.len() > 0 && is_ws(s.last()) {
        trim_end(s.drop_last())
    } else {
        s
    }
}

/// `str::trim`.
pub open spec fn trim(s: Seq<char>) -> Seq<char> {
    trim_end(trim_start(s))
}

/// The delimiters by which the library splits text.
#[derive(Clone, Copy, Debug, PartialEq, Eq, Structural)]
pub enum Delim {
    /// One given character.
    Char(char),
    /// Any whitespace character.
    Whitespace,
}

pub open spec fn is_delim(d: Delim, c: char) -> bool {
    match d {
        Delim::Char(x) => c == x,
        Delim::Whitespace => is_ws(c),
    }
}

impl Delim {
    pub fn matches(&self, c: char) -> (r: bool)
        ensures
            r == is_delim(*self, c),
    {
        match self {
            Delim::Char(x) => c == *x,
                Delim::Whitespace => is_whitespace(c),
        }
    }
}

/// `str::split` with a character pattern: the pieces between delimiters,
/// always at least one.
pub open spec fn split_by(s: Seq<char>, d: Delim) -> Seq<Seq<char>>
    decreases s.len(),
{
    if s.len() == 0 {
        seq![Seq::<char>::empty()]
    } else {
        let r = split_by(s.drop_last(), d);
        if is_delim(d, s.last()) {
            r.push(Seq::<char>::empty())
        } else {
            r.update(r.len() - 1, r.last().push(s.last()))
        }
    }
}

pub proof fn lemma_split_by_nonempty(s: Seq<char>, d: Delim)
    ensures
        split_by(s, d).len() >= 1,
    decreases s.len(),
{
    if s.len() > 0 {
        lemma_split_by_nonempty(s.drop_last(), d);
    }
}

/// The pieces that are not empty, in order.
pub open spec fn drop_empty(parts: Seq<Seq<char>>) -> Seq<Seq<char>>
    decreases parts.len(),
{
    if parts.len() == 0 {
        parts
    } else {
        let r = drop_empty(parts.drop_last());
        if parts.last().len() == 0 {
            r
        } else {
            r.push(parts.last())
        }
    }
}

/// No piece contains a delimiter, and every character of a piece satisfies
/// whatever every character of `s` satisfies.
pub proof fn lemma_split_by_chars(s: Seq<char>, d: Delim, p: spec_fn(char) -> bool)
    requires
        forall|i: int| 0 <= i < s.len() ==> p(#[trigger] s[i]),
    ensures
        forall|k: int, i: int|
            0 <= k < split_by(s, d).len() && 0 <= i < split_by(s, d)[k].len() ==> p(
                #[trigger] split_by(s, d)[k][i],
            ) && !is_delim(d, split_by(s, d)[k][i]),
    decreases s.len(),
{
    lemma_split_by_nonempty(s, d);
    if s.len() > 0 {
        let t = s.drop_last();
        assert forall|i: int| 0 <= i < t.len() implies p(#[trigger] t[i]) by {
            assert(t[i] == s[i]);
        }
        lemma_split_by_chars(t, d, p);
        lemma_split_by_nonempty(t, d);
        let r = split_by(t, d);
        assert(p(s[s.len() - 1]));
        if !is_delim(d, s.last()) {
            let nr = r.update(r.len() - 1, r.last().push(s.last()));
            assert forall|k: int, i: int| 0 <= k < nr.len() && 0 <= i < nr[k].len() implies p(
                #[trigger] nr[k][i],
            ) && !is_delim(d, nr[k][i]) by {
                if k == r.len() - 1 && i == r.last().len() {
                } else if k == r.len() - 1 {
                    assert(nr[k][i] == r[k][i]);
                } else {
                    assert(nr[k] == r[k]);
                }
            }
        } else {
            let nr = r.push(Seq::<char>::empty());
            assert forall|k: int, i: int| 0 <= k < nr.len() && 0 <= i < nr[k].len() implies p(
                #[trigger] nr[k][i],
            ) && !is_delim(d, nr[k][i]) by {
                assert(nr[k] == r[k]);
            }
        }
    }
}

/// Splitting `s + t` where `t` holds no delimiter extends the last piece by `t`.
pub proof fn lemma_split_by_append(s: Seq<char>, t: Seq<char>, d: Delim)
    requires
        forall|i: int| 0 <= i < t.len() ==> !is_delim(d, #[trigger] t[i]),
    ensures
        split_by(s + t, d) == split_by(s, d).update(
            split_by(s, d).len() - 1,
            split_by(s, d).last() + t,
        ),
    decreases t.len(),
{
    lemma_split_by_nonempty(s, d);
    let r = split_by(s, d);
    if t.len() == 0 {
        assert(s + t == s);
        assert(r.last() + t == r.last());
        assert(r.update(r.len() - 1, r.last()) == r);
    } else {
        let t0 = t.drop_last();
        assert forall|i: int| 0 <= i < t0.len() implies !is_delim(d, #[trigger] t0[i]) by {
            assert(t0[i] == t[i]);
        }
        lemma_split_by_append(s, t0, d);
        assert((s + t).drop_last() == s + t0);
        assert((s + t).last() == t.last());
        assert(!is_delim(d, t[t.len() - 1]));
        assert(r.last() + t0 + seq![t.last()] == r.last() + t);
        assert((r.last() + t0).push(t.last()) == r.last() + t);
    }
}

/// Splitting after a delimiter starts a new, empty piece.
pub proof fn lemma_split_by_push_delim(s: Seq<char>, x: char, d: Delim)
    requires
        is_delim(d, x),
    ensures
        split_by(s.push(x), d) == split_by(s, d).push(Seq::empty()),
{
    assert(s.push(x).drop_last() == s);
}

/// Every part that `drop_empty` keeps is non-empty and one of the parts.
pub proof fn lemma_drop_empty(parts: Seq<Seq<char>>, q: spec_fn(Seq<char>) -> bool)
    requires
        forall|k: int| 0 <= k < parts.len() ==> q(#[trigger] parts[k]),
    ensures
        forall|k: int|
            0 <= k < drop_empty(parts).len() ==> q(#[trigger] drop_empty(parts)[k])
                && drop_empty(parts)[k].len() > 0,
    decreases parts.len(),
{
    if parts.len() > 0 {
        let t = parts.drop_last();
        assert forall|k: int| 0 <= k < t.len() implies q(#[trigger] t[k]) by {
            assert(t[k] == parts[k]);
        }
        lemma_drop_empty(t, q);
        assert(q(parts[parts.len() - 1]));
        let r = drop_empty(t);
        if parts.last().len() > 0 {
            let nr = r.push(parts.last());
            assert forall|k: int| 0 <= k < nr.len() implies q(#[trigger] nr[k]) && nr[k].len() > 0 by {
                if k < r.len() {
                    assert(nr[k] == r[k]);
                }
            }
        }
    }
}

/// `trim_end(s)` is a prefix of `s` that is empty or ends with a non-whitespace character.
pub proof fn lemma_trim_end(s: Seq<char>)
    ensures
        trim_end(s).len() <= s.len(),
        trim_end(s) == s.take(trim_end(s).len() as int),
        trim_end(s).len() > 0 ==> !is_ws(trim_end(s).last()),
    decreases s.len(),
{
    if s.len() > 0 && is_ws(s.last()) {
        lemma_trim_end(s.drop_last());
        let t = trim_end(s.drop_last());
        assert(s.drop_last().take(t.len() as int) == s.take(t.len() as int));
    } else {
        assert(s.take(s.len() as int) == s);
    }
}

/// The non-empty pieces between delimiters (`split_whitespace` for `Delim::Whitespace`).
pub open spec fn words(s: Seq<char>, d: Delim) -> Seq<Seq<char>> {
    drop_empty(split_by(s, d))
}

/// `[..].join(sep)`.
pub open spec fn join(parts: Seq<Seq<char>>, sep: Seq<char>) -> Seq<char>
    decreases parts.len(),
{
    if parts.len() == 0 {
        Seq::empty()
    } else if parts.len() == 1 {
        parts[0]
    } else {
        join(parts.drop_last(), sep) + sep + parts.last()
    }
}

/// Every character not matching the delimiter, in order.
pub open spec fn remove_delims(s: Seq<char>, d: Delim) -> Seq<char>
    decreases s.len(),
{
    if s.len() == 0 {
        s
    } else if is_delim(d, s.last()) {
        remove_delims(s.drop_last(), d)
    } else {
        remove_delims(s.drop_last(), d).push(s.last())
    }
}

/// Index of the first occurrence of `c`.
pub open spec fn find_char(s: Seq<char>, c: char) -> Option<int>
    decreases s.len(),
{
    if s.len() == 0 {
        None
    } else if s[0] == c {
        Some(0)
    } else {
        match find_char(s.drop_first(), c) {
            Some(i) => Some(i + 1),
            None => None,
        }
    }
}

pub proof fn lemma_find_char(s: Seq<char>, c: char)
    ensures
        match find_char(s, c) {
            Some(i) => 0 <= i < s.len() && s[i] == c && forall|j: int| 0 <= j < i ==> s[j] != c,
            None => forall|j: int| 0 <= j < s.len() ==> s[j] != c,
        },
    decreases s.len(),
{
    if s.len() > 0 {
        lemma_find_char(s.drop_first(), c);
        if s[0] != c {
            match find_char(s.drop_first(), c) {
                Some(i) => {
                    assert forall|j: int| 0 <= j < i + 1 implies s[j] != c by {
                        if j > 0 {
                            assert(s[j] == s.drop_first()[j - 1]);
                        }
                    }
                },
                None => {
                    assert forall|j: int| 0 <= j < s.len() implies s[j] != c by {
                        if j > 0 {
                            assert(s[j] == s.drop_first()[j - 1]);
                        }
                    }
                },
            }
        }
    }
}

/// The first index `i` with `s[i] == c`, when there is one.
pub fn index_of_char(s: &[char], c: char) -> (r: Option<usize>)
    ensures
        match r {
            Some(i) => i < s.len() && find_char(s@, c) == Some(i as int),
            None => find_char(s@, c) is None,
        },
{
    proof {
        lemma_find_char(s@, c);
    }
    let mut i: usize = 0;
    while i < s.len()
        invariant
            i <= s.len(),
            forall|j: int| 0 <= j < i ==> s@[j] != c,
        decreases s.len() - i,
    {
        if s[i] == c {
            proof {
                lemma_find_char(s@, c);
                match find_char(s@, c) {
                    Some(k) => {
                        assert(k == i as int);
                    },
                    None => {
                        assert(s@[i as int] != c);
                    },
                }
            }
            return Some(i);
        }
        i = i + 1;
    }
    proof {
        lemma_find_char(s@, c);
        match find_char(s@, c) {
            Some(k) => {
                assert(s@[k] != c);
            },
            None => {},
        }
    }
    None
}

/// Characters `s[lo..hi]` as a vector.
pub fn subrange(s: &[char], lo: usize, hi: usize) -> (r: Vec<char>)
    requires
        lo <= hi <= s.len(),
    ensures
        r@ == s@.subrange(lo as int, hi as int),
{
    let mut r: Vec<char> = Vec::new();
    let mut i: usize = lo;
    while i < hi
        invariant
            lo <= i <= hi <= s.len(),
            r@ == s@.subrange(lo as int, i as int),
        decreases hi - i,
    {
        r.push(s[i]);
        i = i + 1;
        assert(r@ == s@.subrange(lo as int, i as int));
    }
    r
}

/// Appends `b` to `a`.
pub fn extend_chars(a: &mut Vec<char>, b: &[char])
    ensures
        final(a)@ == old(a)@ + b@,
{
    let ghost a0 = a@;
    let mut i: usize = 0;
    while i < b.len()
        invariant
            i <= b.len(),
            a@ == a0 + b@.take(i as int),
        decreases b.len() - i,
    {
        a.push(b[i]);
        i = i + 1;
        assert(a@ == a0 + b@.take(i as int));
    }
    assert(b@.take(b.len() as int) == b@);
}

/// Concatenation of three character sequences.
pub fn concat3(a: &[char], b: &[char], c: &[char]) -> (r: Vec<char>)
    ensures
        r@ == a@ + b@ + c@,
{
    let mut r: Vec<char> = Vec::new();
    extend_chars(&mut r, a);
    extend_chars(&mut r, b);
    extend_chars(&mut r, c);
    r
}

/// Whether two character sequences are equal.
pub fn chars_eq(a: &[char], b: &[char]) -> (r: bool)
    ensures
        r == (a@ == b@),
{
    if a.len() != b.len() {
        return false;
    }
    let mut i: usize = 0;
    while i < a.len()
        invariant
            a.len() == b.len(),
            i <= a.len(),
            forall|j: int| 0 <= j < i ==> a@[j] == b@[j],
        decreases a.len() - i,
    {
        if a[i] != b[i] {
            return false;
        }
        i = i + 1;
    }
    assert(a@ == b@);
    true
}

/// Index `k` with `trim_start(s) == s[k..]`.
pub fn trim_start_index(s: &[char]) -> (k: usize)
    ensures
        k <= s.len(),
        trim_start(s@) == s@.skip(k as int),
{
    let mut i: usize = 0;
    assert(s@.skip(0) == s@);
    while i < s.len() && is_whitespace(s[i])
        invariant
            i <= s.len(),
            trim_start(s@) == trim_start(s@.skip(i as int)),
        decreases s.len() - i,
    {
        assert(s@.skip(i as int).drop_first() == s@.skip(i + 1));
        i = i + 1;
    }
    i
}

/// Index `k` with `trim_end(s) == s[..k]`.
pub fn trim_end_index(s: &[char]) -> (k: usize)
    ensures
        k <= s.len(),
        trim_end(s@) == s@.take(k as int),
{
    let mut i: usize = s.len();
    assert(s@.take(s.len() as int) == s@);
    while i > 0 && is_whitespace(s[i - 1])
        invariant
            i <= s.len(),
            trim_end(s@) == trim_end(s@.take(i as int)),
        decreases i,
    {
        assert(s@.take(i as int).drop_last() == s@.take(i - 1));
        i = i - 1;
    }
    i
}

pub fn trim_chars(s: &[char]) -> (r: Vec<char>)
    ensures
        r@ == trim(s@),
{
    let a = trim_start_index(s);
    let t = subrange(s, a, s.len());
    let b = trim_end_index(&t);
    subrange(&t, 0, b)
}

pub fn trim_end_chars(s: &[char]) -> (r: Vec<char>)
    ensures
        r@ == trim_end(s@),
{
    let b = trim_end_index(s);
    subrange(s, 0, b)
}

/// `split_by` as vectors.
pub fn split_chars(s: &[char], d: Delim) -> (r: Vec<Vec<char>>)
    ensures
        r@.map_values(|v: Vec<char>| v@) == split_by(s@, d),
{
    let mut r: Vec<Vec<char>> = Vec::new();
    let mut cur: Vec<char> = Vec::new();
    let mut i: usize = 0;
    assert(s@.take(0) == Seq::<char>::empty());
    while i < s.len()
        invariant
            i <= s.len(),
            r@.map_values(|v: Vec<char>| v@).push(cur@) == split_by(s@.take(i as int), d),
        decreases s.len() - i,
    {
        let c = s[i];
        let ghost prev = split_by(s@.take(i as int), d);
        assert(s@.take(i + 1).drop_last() == s@.take(i as int));
        if d.matches(c) {
            let done = cur;
            r.push(done);
            cur = Vec::new();
            assert(r@.map_values(|v: Vec<char>| v@) == prev);
        } else {
            cur.push(c);
            assert(r@.map_values(|v: Vec<char>| v@).push(cur@) == prev.update(
                prev.len() - 1,
                prev.last().push(c),
            ));
        }
        i = i + 1;
    }
    assert(s@.take(s.len() as int) == s@);
    r.push(cur);
    r
}

/// Copy of a character vector.
pub fn copy_chars(s: &[char]) -> (r: Vec<char>)
    ensures
        r@ == s@,
{
    let r = subrange(s, 0, s.len());
    assert(s@.subrange(0, s@.len() as int) == s@);
    r
}

/// `drop_empty` as vectors.
pub fn drop_empty_parts(parts: &Vec<Vec<char>>) -> (r: Vec<Vec<char>>)
    ensures
        r@.map_values(|v: Vec<char>| v@) == drop_empty(parts@.map_values(|v: Vec<char>| v@)),
{
    let ghost pv = parts@.map_values(|v: Vec<char>| v@);
    let mut r: Vec<Vec<char>> = Vec::new();
    let mut i: usize = 0;
    assert(pv.take(0) == Seq::<Seq<char>>::empty());
    while i < parts.len()
        invariant
            pv == parts@.map_values(|v: Vec<char>| v@),
            i <= parts.len(),
            r@.map_values(|v: Vec<char>| v@) == drop_empty(pv.take(i as int)),
        decreases parts.len() - i,
    {
        assert(pv.take(i + 1).drop_last() == pv.take(i as int));
        assert(pv[i as int] == parts@[i as int]@);
        if parts[i].len() > 0 {
            let p = copy_chars(&parts[i]);
            r.push(p);
        }
        i = i + 1;
    }
    assert(pv.take(parts.len() as int) == pv);
    r
}

/// `join` as a vector.
pub fn join_chars(parts: &Vec<Vec<char>>, sep: &[char]) -> (r: Vec<char>)
    ensures
        r@ == join(parts@.map_values(|v: Vec<char>| v@), sep@),
{
    let ghost pv = parts@.map_values(|v: Vec<char>| v@);
    let mut r: Vec<char> = Vec::new();
    let mut i: usize = 0;
    while i < parts.len()
        invariant
            pv == parts@.map_values(|v: Vec<char>| v@),
            i <= parts.len(),
            r@ == join(pv.take(i as int), sep@),
        decreases parts.len() - i,
    {
        assert(pv.take(i + 1).drop_last() == pv.take(i as int));
        assert(pv.take(i + 1).last() == parts@[i as int]@);
        if i > 0 {
            extend_chars(&mut r, sep);
        } else {
            assert(pv.take(1) == seq![pv[0]]);
        }
        extend_chars(&mut r, &parts[i]);
        i = i + 1;
    }
    assert(pv.take(parts.len() as int) == pv);
    r
}

/// The code of a character with ASCII upper-case letters mapped to lower case.
pub open spec fn ascii_fold(c: char) -> u32 {
    let u = c as u32;
    if 65 <= u && u <= 90 {
        (u + 32) as u32
    } else {
        u
    }
}

/// `str::eq_ignore_ascii_case`.
pub open spec fn eq_ignore_ascii_case(a: Seq<char>, b: Seq<char>) -> bool {
    a.len() == b.len() && forall|i: int| 0 <= i < a.len() ==> ascii_fold(a[i]) == ascii_fold(b[i])
}

fn ascii_fold_char(c: char) -> (r: u32)
    ensures
        r == ascii_fold(c),
{
    let u = c as u32;
    if 65 <= u && u <= 90 {
        u + 32
    } else {
        u
    }
}

/// Whether two character sequences are equal up to ASCII case.
pub fn chars_eq_ignore_ascii_case(a: &[char], b: &[char]) -> (r: bool)
    ensures
        r == eq_ignore_ascii_case(a@, b@),
{
    if a.len() != b.len() {
        return false;
    }
    let mut i: usize = 0;
    while i < a.len()
        invariant
            a.len() == b.len(),
            i <= a.len(),
            forall|j: int| 0 <= j < i ==> ascii_fold(a@[j]) == ascii_fold(b@[j]),
        decreases a.len() - i,
    {
        if ascii_fold_char(a[i]) != ascii_fold_char(b[i]) {
            return false;
        }
        i = i + 1;
    }
    true
}

} // verus!
