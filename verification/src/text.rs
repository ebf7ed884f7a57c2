//! Character-level helpers shared by the parsers of this crate.

use vstd::prelude::*;
use vstd::string::StrSliceExecFns;

verus! {

/// Length of the run of characters satisfying `p` that starts at `i`.
pub open spec fn run_len(s: Seq<char>, i: int, p: spec_fn(char) -> bool) -> nat
    decreases s.len() - i,
{
    if 0 <= i < s.len() && p(s[i]) {
        1 + run_len(s, i + 1, p)
    } else {
        0
    }
}

/// `p` occurs in `s` at position `i`.
pub open spec fn has_at(s: Seq<char>, i: int, p: Seq<char>) -> bool {
    0 <= i && i + p.len() <= s.len() && s.subrange(i, i + p.len()) == p
}

pub proof fn lemma_run_len_props(s: Seq<char>, i: int, p: spec_fn(char) -> bool)
    requires
        0 <= i <= s.len(),
    ensures
        i + run_len(s, i, p) <= s.len(),
        forall|j: int| i <= j < i + run_len(s, i, p) ==> p(#[trigger] s[j]),
        i + run_len(s, i, p) < s.len() ==> !p(s[i + run_len(s, i, p)]),
    decreases s.len() - i,
{
    if i < s.len() && p(s[i]) {
        lemma_run_len_props(s, i + 1, p);
    }
}

/// The characters of `s`, one element each.
pub fn chars_of(s: &str) -> (v: Vec<char>)
    ensures
        v@ == s@,
{
    let n = s.unicode_len();
    let mut v: Vec<char> = Vec::new();
    let mut i: usize = 0;
    while i < n
        invariant
            n == s@.len(),
            i <= n,
            v@ == s@.subrange(0, i as int),
        decreases n - i,
    {
        v.push(s.get_char(i));
        i = i + 1;
    }
    v
}

/// Whether `lit` occurs in `v` at position `i`.
pub fn has_at_exec(v: &Vec<char>, i: usize, lit: &str) -> (r: bool)
    requires
        i <= v.len(),
    ensures
        r == has_at(v@, i as int, lit@),
{
    let n = lit.unicode_len();
    if n > v.len() - i {
        return false;
    }
    let mut j: usize = 0;
    while j < n
        invariant
            n == lit@.len(),
            i + n <= v.len(),
            j <= n,
            forall|k: int| 0 <= k < j ==> v@[i + k] == lit@[k],
        decreases n - j,
    {
        if v[i + j] != lit.get_char(j) {
            assert(v@.subrange(i as int, i + n)[j as int] != lit@[j as int]);
            return false;
        }
        j = j + 1;
    }
    assert(v@.subrange(i as int, i + n) =~= lit@);
    true
}

/// `p` is a suffix of `s`.
pub open spec fn ends_with(s: Seq<char>, p: Seq<char>) -> bool {
    p.len() <= s.len() && s.subrange(s.len() - p.len(), s.len() as int) == p
}

/// Runs are unchanged by cutting the string, up to the cut.
pub proof fn lemma_run_len_window(s: Seq<char>, a: int, b: int, m: int, p: spec_fn(char) -> bool)
    requires
        0 <= a <= m <= b <= s.len(),
    ensures
        run_len(s.subrange(a, b), m - a, p) == if run_len(s, m, p) <= b - m {
            run_len(s, m, p) as int
        } else {
            b - m
        },
    decreases b - m,
{
    if m < b && p(s[m]) {
        lemma_run_len_window(s, a, b, m + 1, p);
    }
}

/// Executable [`run_len`] for a predicate that `f` computes.
pub fn run_len_exec<F: Fn(char) -> bool>(
    v: &Vec<char>,
    i: usize,
    f: F,
    Ghost(p): Ghost<spec_fn(char) -> bool>,
) -> (n: usize)
    requires
        i <= v.len(),
        forall|c: char| #[trigger] f.requires((c,)),
        forall|c: char, b: bool| f.ensures((c,), b) ==> b == p(c),
    ensures
        i + n <= v.len(),
        n == run_len(v@, i as int, p),
{
    let mut j = i;
    while j < v.len() && f(v[j])
        invariant
            i <= j <= v.len(),
            forall|c: char| #[trigger] f.requires((c,)),
            forall|c: char, b: bool| f.ensures((c,), b) ==> b == p(c),
            run_len(v@, i as int, p) == (j - i) + run_len(v@, j as int, p),
        decreases v.len() - j,
    {
        j = j + 1;
    }
    j - i
}

/// Whether `lit` is a suffix of `v[start..end]`.
pub fn ends_with_exec(v: &Vec<char>, start: usize, end: usize, lit: &str) -> (r: bool)
    requires
        start <= end <= v.len(),
    ensures
        r == ends_with(v@.subrange(start as int, end as int), lit@),
{
    let n = lit.unicode_len();
    if n > end - start {
        return false;
    }
    let r = has_at_exec(v, end - n, lit);
    proof {
        let t = v@.subrange(start as int, end as int);
        assert(t.subrange(t.len() - n, t.len() as int) =~= v@.subrange(end - n, end as int));
    }
    r
}

/// Lexicographic order of strings by character, compared from index `i` on.
pub open spec fn seq_lt_from(a: Seq<char>, b: Seq<char>, i: int) -> bool
    decreases a.len() - i,
{
    if i < 0 || i >= a.len() {
        0 <= i < b.len()
    } else if i >= b.len() {
        false
    } else if a[i] != b[i] {
        a[i] < b[i]
    } else {
        seq_lt_from(a, b, i + 1)
    }
}

/// Lexicographic order of strings by character (for UTF-8 strings, the same as
/// the order of their bytes).
pub open spec fn seq_lt(a: Seq<char>, b: Seq<char>) -> bool {
    seq_lt_from(a, b, 0)
}

pub proof fn lemma_seq_lt_from_trans(a: Seq<char>, b: Seq<char>, c: Seq<char>, i: int)
    requires
        0 <= i,
        seq_lt_from(a, b, i),
        seq_lt_from(b, c, i),
    ensures
        seq_lt_from(a, c, i),
    decreases a.len() - i,
{
    if i < a.len() && i < b.len() && i < c.len() && a[i] == b[i] && b[i] == c[i] {
        lemma_seq_lt_from_trans(a, b, c, i + 1);
    }
}

pub proof fn lemma_seq_lt_from_irrefl(a: Seq<char>, i: int)
    requires
        0 <= i,
    ensures
        !seq_lt_from(a, a, i),
    decreases a.len() - i,
{
    if i < a.len() {
        lemma_seq_lt_from_irrefl(a, i + 1);
    }
}

pub proof fn lemma_seq_lt_from_total(a: Seq<char>, b: Seq<char>, i: int)
    requires
        0 <= i <= a.len(),
        0 <= i <= b.len(),
        !seq_lt_from(a, b, i),
        !seq_lt_from(b, a, i),
    ensures
        a.subrange(i, a.len() as int) == b.subrange(i, b.len() as int),
    decreases a.len() - i,
{
    if i < a.len() && i < b.len() {
        lemma_seq_lt_from_total(a, b, i + 1);
        assert(a.subrange(i, a.len() as int) =~= seq![a[i]] + a.subrange(i + 1, a.len() as int));
        assert(b.subrange(i, b.len() as int) =~= seq![b[i]] + b.subrange(i + 1, b.len() as int));
    } else {
        assert(a.subrange(i, a.len() as int) =~= b.subrange(i, b.len() as int));
    }
}

pub proof fn lemma_seq_lt_trans(a: Seq<char>, b: Seq<char>, c: Seq<char>)
    requires
        seq_lt(a, b),
        seq_lt(b, c),
    ensures
        seq_lt(a, c),
{
    lemma_seq_lt_from_trans(a, b, c, 0);
}

pub proof fn lemma_seq_lt_total(a: Seq<char>, b: Seq<char>)
    ensures
        a == b || seq_lt(a, b) || seq_lt(b, a),
        !seq_lt(a, a),
{
    lemma_seq_lt_from_irrefl(a, 0);
    if !seq_lt(a, b) && !seq_lt(b, a) {
        lemma_seq_lt_from_total(a, b, 0);
        assert(a =~= a.subrange(0, a.len() as int));
        assert(b =~= b.subrange(0, b.len() as int));
    }
}

/// Executable [`seq_lt`].
pub fn str_lt(a: &str, b: &str) -> (r: bool)
    ensures
        r == seq_lt(a@, b@),
{
    let va = chars_of(a);
    let vb = chars_of(b);
    let mut i: usize = 0;
    while i < va.len() && i < vb.len() && va[i] == vb[i]
        invariant
            i <= va.len(),
            i <= vb.len(),
            va@ == a@,
            vb@ == b@,
            seq_lt(a@, b@) == seq_lt_from(a@, b@, i as int),
        decreases va.len() - i,
    {
        i = i + 1;
    }
    if i >= va.len() {
        i < vb.len()
    } else if i >= vb.len() {
        false
    } else {
        va[i] < vb[i]
    }
}

/// Executable equality of strings.
pub fn str_eq(a: &str, b: &str) -> (r: bool)
    ensures
        r == (a@ == b@),
{
    let va = chars_of(a);
    let n = va.len();
    if n != b.unicode_len() {
        return false;
    }
    let r = has_at_exec(&va, 0, b);
    proof {
        assert(va@.subrange(0, n as int) =~= va@);
    }
    r
}


/// The last position of `c` in `s`.
pub open spec fn last_index_of(s: Seq<char>, c: char) -> Option<int>
    decreases s.len(),
{
    if s.len() == 0 {
        None
    } else if s.last() == c {
        Some(s.len() - 1)
    } else {
        last_index_of(s.drop_last(), c)
    }
}

pub proof fn lemma_last_index_of(s: Seq<char>, c: char)
    ensures
        match last_index_of(s, c) {
            Some(i) => 0 <= i < s.len() && s[i] == c && forall|j: int| i < j < s.len() ==> s[j] != c,
            None => forall|j: int| 0 <= j < s.len() ==> s[j] != c,
        },
    decreases s.len(),
{
    if s.len() > 0 && s.last() != c {
        lemma_last_index_of(s.drop_last(), c);
        assert forall|j: int| 0 <= j < s.len() - 1 implies s[j] == s.drop_last()[j] by {}
    }
}

/// Executable [`last_index_of`].
pub fn last_index_of_exec(v: &Vec<char>, c: char) -> (r: Option<usize>)
    ensures
        match r {
            Some(i) => last_index_of(v@, c) == Some(i as int),
            None => last_index_of(v@, c) is None,
        },
{
    let mut i = v.len();
    assert(v@.take(i as int) =~= v@);
    while i > 0
        invariant
            i <= v.len(),
            last_index_of(v@, c) == last_index_of(v@.take(i as int), c),
        decreases i,
    {
        assert(v@.take(i as int).drop_last() =~= v@.take(i - 1));
        if v[i - 1] == c {
            return Some(i - 1);
        }
        i = i - 1;
    }
    None
}

/// `s` starts with `lit`.
pub fn starts_with_exec(s: &str, lit: &str) -> (r: bool)
    ensures
        r == has_at(s@, 0, lit@),
{
    let v = chars_of(s);
    has_at_exec(&v, 0, lit)
}

/// `p` occurs somewhere in `s`.
pub open spec fn contains_seq(s: Seq<char>, p: Seq<char>) -> bool {
    exists|i: int| has_at(s, i, p)
}

/// Whether `lit` occurs in `s`.
pub fn contains_exec(s: &str, lit: &str) -> (r: bool)
    ensures
        r == contains_seq(s@, lit@),
{
    let v = chars_of(s);
    let n = v.len();
    let mut i: usize = 0;
    while i < n
        invariant
            v@ == s@,
            n == v.len(),
            i <= n,
            forall|j: int| 0 <= j < i ==> !has_at(v@, j, lit@),
        decreases n - i,
    {
        if has_at_exec(&v, i, lit) {
            return true;
        }
        i = i + 1;
    }
    if has_at_exec(&v, n, lit) {
        return true;
    }
    assert forall|j: int| !has_at(v@, j, lit@) by {
        if 0 <= j < n {
        }
    }
    false
}

/// The first position at or after `i` where `p` occurs.
pub open spec fn first_from(s: Seq<char>, i: int, p: Seq<char>) -> Option<int>
    decreases s.len() + 1 - i,
{
    if i < 0 || i > s.len() {
        None
    } else if has_at(s, i, p) {
        Some(i)
    } else {
        first_from(s, i + 1, p)
    }
}

/// Executable [`first_from`].
pub fn first_from_exec(v: &Vec<char>, i: usize, lit: &str) -> (r: Option<usize>)
    requires
        i <= v.len(),
    ensures
        match r {
            Some(j) => first_from(v@, i as int, lit@) == Some(j as int) && i <= j <= v.len()
                && has_at(v@, j as int, lit@),
            None => first_from(v@, i as int, lit@) is None,
        },
{
    let mut j = i;
    while j < v.len()
        invariant
            i <= j <= v.len(),
            first_from(v@, i as int, lit@) == first_from(v@, j as int, lit@),
        decreases v.len() - j,
    {
        if has_at_exec(v, j, lit) {
            return Some(j);
        }
        j = j + 1;
    }
    if has_at_exec(v, j, lit) {
        return Some(j);
    }
    assert(first_from(v@, j + 1, lit@) is None);
    None
}

/// Where [`first_from`] lands, and that `p` occurs nowhere before it.
pub proof fn lemma_first_from(s: Seq<char>, i: int, p: Seq<char>)
    ensures
        match first_from(s, i, p) {
            Some(j) => 0 <= i <= j <= s.len() && has_at(s, j, p)
                && forall|k: int| i <= k < j ==> !has_at(s, k, p),
            None => i < 0 || forall|k: int| i <= k ==> !has_at(s, k, p),
        },
    decreases s.len() + 1 - i,
{
    if 0 <= i <= s.len() && !has_at(s, i, p) {
        lemma_first_from(s, i + 1, p);
    }
}

} // verus!
