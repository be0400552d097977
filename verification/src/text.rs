//! Character-level text operations with their specifications.
//!
//! Texts are modelled as sequences of characters (`Seq<char>`), the view of
//! `String` and `&str`.

use vstd::prelude::*;

verus! {

broadcast use vstd::string::group_string_axioms;

// ---------------------------------------------------------------------------
// Specifications
// ---------------------------------------------------------------------------

/// `p` occurs in `s` starting at position `i`.
pub open spec fn occurs_at(s: Seq<char>, p: Seq<char>, i: int) -> bool {
    0 <= i && i + p.len() <= s.len() && s.subrange(i, i + p.len()) == p
}

/// `p` occurs somewhere in `s`.
pub open spec fn contains_text(s: Seq<char>, p: Seq<char>) -> bool {
    exists|i: int| occurs_at(s, p, i)
}

/// `i` is the position of the first occurrence of `p` in `s`.
pub open spec fn is_first_occurrence(s: Seq<char>, p: Seq<char>, i: int) -> bool {
    occurs_at(s, p, i) && forall|j: int| 0 <= j < i ==> !occurs_at(s, p, j)
}

/// `j` is the first position at or after `from` where `s` holds `c`.
pub open spec fn is_first_char_from(s: Seq<char>, c: char, from: int, j: int) -> bool {
    from <= j < s.len() && s[j] == c && forall|k: int| from <= k < j ==> s[k] != c
}

/// `s` with every leading repetition of `p` removed (`str::trim_start_matches`).
pub open spec fn trim_start_all(s: Seq<char>, p: Seq<char>) -> Seq<char>
    decreases s.len(),
{
    if p.len() > 0 && p.is_prefix_of(s) {
        trim_start_all(s.skip(p.len() as int), p)
    } else {
        s
    }
}

/// `s` with every occurrence of `from`, taken left to right without overlap,
/// replaced by `to` (`str::replace`).
pub open spec fn replace_all(s: Seq<char>, from: Seq<char>, to: Seq<char>) -> Seq<char>
    decreases s.len(),
{
    if s.len() == 0 {
        s
    } else if from.len() > 0 && from.is_prefix_of(s) {
        to + replace_all(s.skip(from.len() as int), from, to)
    } else {
        seq![s[0]] + replace_all(s.drop_first(), from, to)
    }
}

/// Unicode `White_Space` (`char::is_whitespace`).
pub open spec fn is_white_space(c: char) -> bool {
    let u = c as int;
    ||| 0x09 <= u <= 0x0d
    ||| u == 0x20
    ||| u == 0x85
    ||| u == 0xa0
    ||| u == 0x1680
    ||| 0x2000 <= u <= 0x200a
    ||| u == 0x2028
    ||| u == 0x2029
    ||| u == 0x202f
    ||| u == 0x205f
    ||| u == 0x3000
}

/// `s` without its trailing white space (`str::trim_end`).
pub open spec fn trim_end_ws(s: Seq<char>) -> Seq<char>
    decreases s.len(),
{
    if s.len() > 0 && is_white_space(s.last()) {
        trim_end_ws(s.drop_last())
    } else {
        s
    }
}

/// `s` without any trailing occurrence of `c` (`str::trim_end_matches` with a
/// character).
pub open spec fn trim_end_char(s: Seq<char>, c: char) -> Seq<char>
    decreases s.len(),
{
    if s.len() > 0 && s.last() == c {
        trim_end_char(s.drop_last(), c)
    } else {
        s
    }
}

// ---------------------------------------------------------------------------
// Conversions
// ---------------------------------------------------------------------------

/// Appends one character to a string (`String::push`).
#[verifier::external_body]
pub(crate) fn push_char(s: &mut String, c: char)
    ensures
        final(s)@ == old(s)@.push(c),
{
    s.push(c);
}

/// The characters of `s`, in order.
pub fn chars_of(s: &str) -> (res: Vec<char>)
    ensures
        res@ == s@,
{
    let mut res: Vec<char> = Vec::new();
    for c in it: s.chars()
        invariant
            res@ == it.seq().take(it.index() as int),
    {
        res.push(c);
    }
    res
}

/// The string made of the characters `v[from..]`.
pub fn string_from(v: &Vec<char>, from: usize) -> (res: String)
    requires
        from <= v.len(),
    ensures
        res@ == v@.skip(from as int),
{
    let mut res = String::new();
    let mut i = from;
    while i < v.len()
        invariant
            from <= i <= v.len(),
            res@ == v@.subrange(from as int, i as int),
        decreases v.len() - i,
    {
        push_char(&mut res, v[i]);
        assert(v@.subrange(from as int, i + 1) =~= v@.subrange(from as int, i as int).push(v@[i as int]));
        i += 1;
    }
    res
}

/// The string made of the first `n` characters of `v`.
pub fn string_take(v: &Vec<char>, n: usize) -> (res: String)
    requires
        n <= v.len(),
    ensures
        res@ == v@.take(n as int),
{
    let mut res = String::new();
    let mut i: usize = 0;
    while i < n
        invariant
            i <= n <= v.len(),
            res@ == v@.take(i as int),
        decreases n - i,
    {
        push_char(&mut res, v[i]);
        assert(v@.take(i + 1) =~= v@.take(i as int).push(v@[i as int]));
        i += 1;
    }
    res
}

/// The string made of all characters of `v`.
pub fn string_of(v: &Vec<char>) -> (res: String)
    ensures
        res@ == v@,
{
    let res = string_from(v, 0);
    assert(v@.skip(0) =~= v@);
    res
}

// ---------------------------------------------------------------------------
// Searching
// ---------------------------------------------------------------------------

/// Whether `p` occurs in `s` at position `i`.
pub fn has_at(s: &Vec<char>, p: &Vec<char>, i: usize) -> (res: bool)
    ensures
        res == occurs_at(s@, p@, i as int),
{
    if i > s.len() || p.len() > s.len() - i {
        return false;
    }
    let mut j: usize = 0;
    while j < p.len()
        invariant
            j <= p.len(),
            i + p.len() <= s.len(),
            forall|k: int| 0 <= k < j ==> s@[i + k] == p@[k],
        decreases p.len() - j,
    {
        if s[i + j] != p[j] {
            assert(s@.subrange(i as int, i + p.len())[j as int] != p@[j as int]);
            return false;
        }
        j += 1;
    }
    assert(s@.subrange(i as int, i + p.len()) =~= p@);
    true
}

/// Position of the first occurrence of `p` in `s` at or after `from`.
pub fn find_from(s: &Vec<char>, p: &Vec<char>, from: usize) -> (res: Option<usize>)
    ensures
        match res {
            Some(i) => from <= i && occurs_at(s@, p@, i as int) && forall|j: int|
                from <= j < i ==> !occurs_at(s@, p@, j),
            None => forall|j: int| from <= j ==> !occurs_at(s@, p@, j),
        },
{
    let mut i = from;
    loop
        invariant
            from <= i,
            forall|j: int| from <= j < i ==> !occurs_at(s@, p@, j),
        decreases s.len() + 1 - i,
    {
        if has_at(s, p, i) {
            return Some(i);
        }
        if i >= s.len() {
            return None;
        }
        i += 1;
    }
}

/// Position of the first `c` in `s` at or after `from`.
pub fn find_char_from(s: &Vec<char>, c: char, from: usize) -> (res: Option<usize>)
    ensures
        match res {
            Some(j) => is_first_char_from(s@, c, from as int, j as int),
            None => forall|k: int| from <= k < s.len() ==> s@[k] != c,
        },
{
    let mut j = from;
    while j < s.len()
        invariant
            from <= j,
            forall|k: int| from <= k < j ==> s@[k] != c,
        decreases s.len() - j,
    {
        if s[j] == c {
            return Some(j);
        }
        j += 1;
    }
    None
}

/// Position of the first occurrence of `p` in `s`.
pub fn find(s: &Vec<char>, p: &Vec<char>) -> (res: Option<usize>)
    ensures
        match res {
            Some(i) => is_first_occurrence(s@, p@, i as int),
            None => !contains_text(s@, p@),
        },
{
    find_from(s, p, 0)
}

/// Whether `p` occurs in `s`.
pub fn contains(s: &Vec<char>, p: &Vec<char>) -> (res: bool)
    ensures
        res == contains_text(s@, p@),
{
    match find(s, p) {
        Some(_) => true,
        None => false,
    }
}

// ---------------------------------------------------------------------------
// Transformations
// ---------------------------------------------------------------------------

/// `occurs_at` seen as a prefix test on the remainder of the text.
pub proof fn lemma_occurs_at_prefix(s: Seq<char>, p: Seq<char>, i: int)
    requires
        0 <= i <= s.len(),
    ensures
        occurs_at(s, p, i) == p.is_prefix_of(s.skip(i)),
{
    if p.len() <= s.len() - i {
        assert(s.skip(i).subrange(0, p.len() as int) =~= s.subrange(i, i + p.len()));
    }
}

/// A text put between two others occurs in the whole.
pub proof fn lemma_occurs_between(a: Seq<char>, p: Seq<char>, b: Seq<char>)
    ensures
        occurs_at(a + p + b, p, a.len() as int),
        contains_text(a + p + b, p),
{
    assert((a + p + b).subrange(a.len() as int, (a.len() + p.len()) as int) =~= p);
}

/// An occurrence in the text after its first character is one in the text.
proof fn lemma_occurs_shift(s: Seq<char>, p: Seq<char>, j: int)
    requires
        s.len() > 0,
        occurs_at(s.drop_first(), p, j),
    ensures
        occurs_at(s, p, j + 1),
{
    assert(s.drop_first().subrange(j, j + p.len()) =~= s.subrange(j + 1, j + 1 + p.len()));
}

/// Replacement takes the first occurrence of the pattern: the text before it
/// is kept, the occurrence becomes the replacement, and the rest is replaced
/// in turn.
#[verifier::rlimit(40)]
pub proof fn law_replace_first(a: Seq<char>, from: Seq<char>, b: Seq<char>, to: Seq<char>)
    requires
        from.len() > 0,
        forall|j: int| 0 <= j < a.len() ==> !occurs_at(a + from + b, from, j),
    ensures
        replace_all(a + from + b, from, to) == a + to + replace_all(b, from, to),
    decreases a.len(),
{
    let s = a + from + b;
    if a.len() == 0 {
        assert(s =~= from + b);
        assert(s.subrange(0, from.len() as int) =~= from);
        assert(s.skip(from.len() as int) =~= b);
        assert(a + to =~= to);
    } else {
        assert(!from.is_prefix_of(s)) by {
            if from.is_prefix_of(s) {
                assert(s.subrange(0, from.len() as int) =~= from);
                assert(occurs_at(s, from, 0));
            }
        }
        assert(replace_all(s, from, to) == seq![s[0]] + replace_all(s.drop_first(), from, to));
        let a2 = a.drop_first();
        assert(s.drop_first() =~= a2 + from + b);
        assert forall|j: int| 0 <= j < a2.len() implies !occurs_at(a2 + from + b, from, j) by {
            if occurs_at(a2 + from + b, from, j) {
                lemma_occurs_shift(s, from, j);
            }
        }
        law_replace_first(a2, from, b, to);
        assert(seq![s[0]] + (a2 + to + replace_all(b, from, to)) =~= a + to + replace_all(
            b,
            from,
            to,
        ));
    }
}

/// Removes every leading repetition of `p` from `s` (`str::trim_start_matches`).
pub fn trim_start_chars(s: &Vec<char>, p: &Vec<char>) -> (res: Vec<char>)
    requires
        p.len() > 0,
    ensures
        res@ == trim_start_all(s@, p@),
{
    let mut i: usize = 0;
    assert(s@.skip(0) =~= s@);
    proof { lemma_occurs_at_prefix(s@, p@, 0); }
    while has_at(s, p, i)
        invariant
            i <= s.len(),
            p.len() > 0,
            trim_start_all(s@.skip(i as int), p@) == trim_start_all(s@, p@),
        decreases s.len() - i,
    {
        proof {
            lemma_occurs_at_prefix(s@, p@, i as int);
            assert(s@.skip(i as int).skip(p.len() as int) =~= s@.skip(i + p.len()));
        }
        i += p.len();
    }
    proof { lemma_occurs_at_prefix(s@, p@, i as int); }
    let mut res: Vec<char> = Vec::new();
    let mut k = i;
    while k < s.len()
        invariant
            i <= k <= s.len(),
            res@ == s@.subrange(i as int, k as int),
        decreases s.len() - k,
    {
        res.push(s[k]);
        assert(s@.subrange(i as int, k + 1) =~= s@.subrange(i as int, k as int).push(s@[k as int]));
        k += 1;
    }
    assert(res@ =~= s@.skip(i as int));
    res
}

/// Replaces every occurrence of `from` in `s` by `to`, left to right without
/// overlap (`str::replace`).
pub fn replace_chars(s: &Vec<char>, from: &Vec<char>, to: &Vec<char>) -> (res: Vec<char>)
    requires
        from.len() > 0,
    ensures
        res@ == replace_all(s@, from@, to@),
{
    let mut res: Vec<char> = Vec::new();
    let mut i: usize = 0;
    assert(s@.skip(0) =~= s@);
    while i < s.len()
        invariant
            i <= s.len(),
            from.len() > 0,
            res@ + replace_all(s@.skip(i as int), from@, to@) == replace_all(s@, from@, to@),
        decreases s.len() - i,
    {
        proof { lemma_occurs_at_prefix(s@, from@, i as int); }
        let ghost rest = s@.skip(i as int);
        if has_at(s, from, i) {
            let mut k: usize = 0;
            let ghost before = res@;
            while k < to.len()
                invariant
                    k <= to.len(),
                    res@ == before + to@.take(k as int),
                decreases to.len() - k,
            {
                res.push(to[k]);
                assert(to@.take(k + 1) =~= to@.take(k as int).push(to@[k as int]));
                k += 1;
            }
            assert(to@.take(to.len() as int) =~= to@);
            assert(rest.skip(from.len() as int) =~= s@.skip(i + from.len()));
            assert(before + (to@ + replace_all(rest.skip(from.len() as int), from@, to@)) =~= res@
                + replace_all(s@.skip(i + from.len()), from@, to@));
            i += from.len();
        } else {
            let ghost before = res@;
            res.push(s[i]);
            assert(rest.drop_first() =~= s@.skip(i + 1));
            assert(before + (seq![rest[0]] + replace_all(rest.drop_first(), from@, to@)) =~= res@
                + replace_all(s@.skip(i + 1), from@, to@));
            i += 1;
        }
    }
    assert(s@.skip(s.len() as int) =~= Seq::<char>::empty());
    assert(res@ + Seq::<char>::empty() =~= res@);
    res
}

/// Whether `c` is Unicode white space (`char::is_whitespace`).
pub fn is_whitespace(c: char) -> (res: bool)
    ensures
        res == is_white_space(c),
{
    let u = c as u32;
    (0x09 <= u && u <= 0x0d) || u == 0x20 || u == 0x85 || u == 0xa0 || u == 0x1680 || (0x2000
        <= u && u <= 0x200a) || u == 0x2028 || u == 0x2029 || u == 0x202f || u == 0x205f || u
        == 0x3000
}

/// Length of `s` once its trailing white space is removed.
pub fn trim_end_len(s: &Vec<char>) -> (res: usize)
    ensures
        res <= s.len(),
        s@.take(res as int) == trim_end_ws(s@),
{
    let mut n = s.len();
    assert(s@.take(n as int) =~= s@);
    while n > 0 && is_whitespace(s[n - 1])
        invariant
            n <= s.len(),
            trim_end_ws(s@.take(n as int)) == trim_end_ws(s@),
        decreases n,
    {
        assert(s@.take(n as int).drop_last() =~= s@.take(n - 1));
        n -= 1;
    }
    n
}

/// Whether two texts are equal.
pub fn text_eq(a: &str, b: &str) -> (res: bool)
    ensures
        res == (a@ == b@),
{
    let va = chars_of(a);
    let vb = chars_of(b);
    if va.len() != vb.len() {
        return false;
    }
    let mut i: usize = 0;
    while i < va.len()
        invariant
            i <= va.len(),
            va.len() == vb.len(),
            va@ == a@,
            vb@ == b@,
            forall|k: int| 0 <= k < i ==> va@[k] == vb@[k],
        decreases va.len() - i,
    {
        if va[i] != vb[i] {
            assert(va@[i as int] != vb@[i as int]);
            return false;
        }
        i += 1;
    }
    assert(va@ =~= vb@);
    true
}

/// Length of `s` once every trailing `c` is removed.
pub fn trim_end_char_len(s: &Vec<char>, c: char) -> (res: usize)
    ensures
        res <= s.len(),
        s@.take(res as int) == trim_end_char(s@, c),
{
    let mut n = s.len();
    assert(s@.take(n as int) =~= s@);
    while n > 0 && s[n - 1] == c
        invariant
            n <= s.len(),
            trim_end_char(s@.take(n as int), c) == trim_end_char(s@, c),
        decreases n,
    {
        assert(s@.take(n as int).drop_last() =~= s@.take(n - 1));
        n -= 1;
    }
    n
}

} // verus!
