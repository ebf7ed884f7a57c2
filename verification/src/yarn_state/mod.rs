//! Reading `.yarn-state.yml`, where yarn records which package it installed where.

use vstd::prelude::*;
use vstd::string::StrSliceExecFns;

use crate::text::{chars_of, first_from, first_from_exec, has_at, has_at_exec, lemma_first_from, run_len, run_len_exec};

pub mod error;
pub mod grammar;

use self::error::Error;
use self::grammar::{
    after_blank_lines, after_comments, after_indented_lines, blank, continuation_lines, digit,
    digit_value, digits_value, field, fields, header, lemma_field, lemma_literals, lemma_package,
    location_item, location_items, locations_field, newline_end, package, packages, state_file,
    unknown_field, PackageView,
};

verus! {

/// What `.yarn-state.yml` says: the version of its format and the installed packages.
#[non_exhaustive]
pub struct YarnState<'a> {
    pub version: u32,
    pub packages: Vec<Package<'a>>,
}

/// A package of the state file: its resolution and the directories it is installed in.
#[non_exhaustive]
pub struct Package<'a> {
    pub resolution: &'a str,
    pub locations: Vec<&'a str>,
}

/// The text of each string.
pub open spec fn strs_view(v: Seq<&str>) -> Seq<Seq<char>> {
    v.map_values(|x: &str| x@)
}

impl<'a> View for Package<'a> {
    type V = PackageView;

    open spec fn view(&self) -> PackageView {
        (self.resolution@, strs_view(self.locations@))
    }
}

/// The view of each package.
pub open spec fn packages_view(v: Seq<Package>) -> Seq<PackageView> {
    v.map_values(|p: Package| p@)
}

/// Reads a `.yarn-state.yml` file.
///
/// It succeeds exactly where the text follows the grammar of [`grammar`] as a whole
/// ([`state_file`]), and gives the version and the packages that the grammar reads.
pub fn parse(input: &str) -> (r: Result<YarnState<'_>, Error>)
    ensures
        match r {
            Ok(st) => state_file(input@) == Some((st.version, packages_view(st.packages@))),
            Err(e) => state_file(input@) is None && e == Error::InvalidSyntax(),
        },
{
    let v = chars_of(input);
    let (version, h) = match header_exec(&v) {
        Some(x) => x,
        None => return Err(Error::InvalidSyntax()),
    };
    let (packages, e) = packages_exec(&v, input, h);
    if packages.len() == 0 || e != v.len() {
        return Err(Error::InvalidSyntax());
    }
    Ok(YarnState { version, packages })
}

fn blank_char(c: char) -> (b: bool)
    ensures
        b == blank()(c),
{
    c == ' ' || c == '\t'
}

fn digit_char(c: char) -> (b: bool)
    ensures
        b == digit()(c),
{
    '0' <= c && c <= '9'
}

fn blank_run(v: &Vec<char>, i: usize) -> (n: usize)
    requires
        i <= v.len(),
    ensures
        i + n <= v.len(),
        n == run_len(v@, i as int, blank()),
{
    run_len_exec(v, i, blank_char, Ghost(blank()))
}

fn newline_end_exec(v: &Vec<char>, i: usize) -> (r: Option<usize>)
    requires
        i <= v.len(),
    ensures
        match r {
            Some(k) => newline_end(v@, i as int) == Some(k as int) && i < k <= v.len(),
            None => newline_end(v@, i as int) is None,
        },
{
    proof {
        lemma_literals();
    }
    if has_at_exec(v, i, "\n") {
        Some(i + 1)
    } else if has_at_exec(v, i, "\r\n") {
        Some(i + 2)
    } else {
        None
    }
}

fn after_comments_exec(v: &Vec<char>, start: usize) -> (r: usize)
    requires
        start <= v.len(),
    ensures
        r as int == after_comments(v@, start as int),
        start <= r <= v.len(),
{
    proof {
        lemma_literals();
    }
    let mut i = start;
    loop
        invariant
            start <= i <= v.len(),
            after_comments(v@, start as int) == after_comments(v@, i as int),
        decreases v.len() - i,
    {
        proof {
            lemma_literals();
        }
        if !has_at_exec(v, i, "#") {
            return i;
        }
        match first_from_exec(v, i + 1, "\n") {
            Some(j) => {
                i = j + 1;
            },
            None => {
                return i;
            },
        }
    }
}

fn after_blank_lines_exec(v: &Vec<char>, start: usize) -> (r: usize)
    requires
        start <= v.len(),
    ensures
        r as int == after_blank_lines(v@, start as int),
        start <= r <= v.len(),
{
    let mut i = start;
    loop
        invariant
            start <= i <= v.len(),
            after_blank_lines(v@, start as int) == after_blank_lines(v@, i as int),
        decreases v.len() - i,
    {
        match newline_end_exec(v, i) {
            Some(k) => {
                i = k;
            },
            None => {
                return i;
            },
        }
    }
}

fn after_indented_lines_exec(v: &Vec<char>, start: usize) -> (r: usize)
    requires
        start <= v.len(),
    ensures
        r as int == after_indented_lines(v@, start as int),
        start <= r <= v.len(),
{
    proof {
        lemma_literals();
    }
    let mut i = start;
    loop
        invariant
            start <= i <= v.len(),
            after_indented_lines(v@, start as int) == after_indented_lines(v@, i as int),
        decreases v.len() - i,
    {
        proof {
            lemma_literals();
        }
        let b = blank_run(v, i);
        if b == 0 {
            return i;
        }
        match first_from_exec(v, i + b, "\n") {
            Some(j) => {
                i = j + 1;
            },
            None => {
                return i;
            },
        }
    }
}

/// Digits are worth at least as much as any of their prefixes.
proof fn lemma_digits_value_prefix(d: Seq<char>, k: int)
    requires
        0 <= k <= d.len(),
        forall|j: int| 0 <= j < d.len() ==> digit()(#[trigger] d[j]),
    ensures
        0 <= digits_value(d.subrange(0, k)) <= digits_value(d),
    decreases d.len(),
{
    if k < d.len() {
        let e = d.drop_last();
        assert(forall|j: int| 0 <= j < e.len() ==> e[j] == d[j]);
        lemma_digits_value_prefix(e, k);
        assert(e.subrange(0, k) =~= d.subrange(0, k));
        let x = digits_value(e);
        assert(0 <= digit_value(d.last()));
        assert(x <= x * 10 + digit_value(d.last())) by (nonlinear_arith)
            requires
                0 <= x,
                0 <= digit_value(d.last()),
        ;
    } else {
        assert(d.subrange(0, k) =~= d);
        lemma_digits_value_nonneg(d);
    }
}

proof fn lemma_digits_value_nonneg(d: Seq<char>)
    requires
        forall|j: int| 0 <= j < d.len() ==> digit()(#[trigger] d[j]),
    ensures
        0 <= digits_value(d),
    decreases d.len(),
{
    if d.len() > 0 {
        let e = d.drop_last();
        assert(forall|j: int| 0 <= j < e.len() ==> e[j] == d[j]);
        lemma_digits_value_nonneg(e);
        let x = digits_value(e);
        assert(0 <= x * 10) by (nonlinear_arith)
            requires
                0 <= x,
        ;
    }
}

/// The value of the digits `v[a..b]`, where it fits in 32 bits.
fn digits_u32(v: &Vec<char>, a: usize, b: usize) -> (r: Option<u32>)
    requires
        a <= b <= v.len(),
        forall|j: int| a <= j < b ==> digit()(#[trigger] v@[j]),
    ensures
        match r {
            Some(n) => n as int == digits_value(v@.subrange(a as int, b as int)),
            None => digits_value(v@.subrange(a as int, b as int)) > u32::MAX,
        },
{
    let ghost d = v@.subrange(a as int, b as int);
    let mut acc: u64 = 0;
    let mut k = a;
    assert(d.subrange(0, 0) =~= Seq::<char>::empty());
    while k < b
        invariant
            a <= k <= b <= v.len(),
            d == v@.subrange(a as int, b as int),
            forall|j: int| a <= j < b ==> digit()(#[trigger] v@[j]),
            acc as int == digits_value(d.subrange(0, k - a)),
            acc <= u32::MAX,
        decreases b - k,
    {
        let c = v[k];
        assert(digit()(v@[k as int]));
        let dv = (c as u32 - 48) as u64;
        let next = acc * 10 + dv;
        proof {
            let p = d.subrange(0, k + 1 - a);
            assert(p.drop_last() =~= d.subrange(0, k - a));
            assert(p.last() == c);
        }
        if next > 4294967295u64 {
            proof {
                assert forall|j: int| 0 <= j < d.len() implies digit()(#[trigger] d[j]) by {
                    assert(d[j] == v@[a + j]);
                }
                lemma_digits_value_prefix(d, k + 1 - a);
            }
            return None;
        }
        acc = next;
        k = k + 1;
    }
    assert(d.subrange(0, b - a) =~= d);
    Some(acc as u32)
}

/// The header: its version where it fits in 32 bits, and the position after it.
fn header_exec(v: &Vec<char>) -> (r: Option<(u32, usize)>)
    ensures
        match r {
            Some((n, h)) => header(v@) == Some((n as int, h as int)) && h <= v.len(),
            None => match header(v@) {
                Some((n, h)) => n > u32::MAX,
                None => true,
            },
        },
{
    proof {
        lemma_literals();
    }
    let i0 = after_blank_lines_exec(v, after_comments_exec(v, 0));
    if !has_at_exec(v, i0, "__metadata:") {
        return None;
    }
    let i1 = match newline_end_exec(v, i0 + 11) {
        Some(k) => k,
        None => return None,
    };
    let b = blank_run(v, i1);
    let i2 = i1 + b;
    if b == 0 || !has_at_exec(v, i2, "version: ") {
        return None;
    }
    let i3 = i2 + 9;
    let d = run_len_exec(v, i3, digit_char, Ghost(digit()));
    if d == 0 {
        return None;
    }
    let i5 = match newline_end_exec(v, i3 + d) {
        Some(k) => k,
        None => return None,
    };
    proof {
        crate::text::lemma_run_len_props(v@, i3 as int, digit());
    }
    let n = match digits_u32(v, i3, i3 + d) {
        Some(n) => n,
        None => return None,
    };
    let h = after_indented_lines_exec(v, i5);
    Some((n, h))
}

/// One `- "<path>"` line.
fn location_item_exec<'a>(v: &Vec<char>, input: &'a str, i: usize) -> (r: Option<(&'a str, usize)>)
    requires
        v@ == input@,
        i <= v.len(),
    ensures
        match r {
            Some((l, k)) => location_item(v@, i as int) == Some((l@, k as int)) && i < k <= v.len(),
            None => location_item(v@, i as int) is None,
        },
{
    proof {
        lemma_literals();
    }
    let b = blank_run(v, i);
    if b == 0 || !has_at_exec(v, i + b, "- \"") {
        return None;
    }
    let a = i + b + 3;
    let j = match first_from_exec(v, a, "\"") {
        Some(j) => j,
        None => return None,
    };
    match newline_end_exec(v, j + 1) {
        Some(k) => Some((input.substring_char(a, j), k)),
        None => None,
    }
}

/// As many `- "<path>"` lines as follow each other.
fn location_items_exec<'a>(v: &Vec<char>, input: &'a str, start: usize) -> (r: (Vec<&'a str>, usize))
    requires
        v@ == input@,
        start <= v.len(),
    ensures
        location_items(v@, start as int) == (strs_view(r.0@), r.1 as int),
        start <= r.1 <= v.len(),
{
    let mut out: Vec<&'a str> = Vec::new();
    let mut i = start;
    loop
        invariant
            v@ == input@,
            start <= i <= v.len(),
            location_items(v@, start as int) == (
                strs_view(out@) + location_items(v@, i as int).0,
                location_items(v@, i as int).1,
            ),
        decreases v.len() - i,
    {
        match location_item_exec(v, input, i) {
            Some((l, k)) => {
                proof {
                    let rest = location_items(v@, k as int);
                    assert(location_items(v@, i as int) == (seq![l@] + rest.0, rest.1));
                    assert(strs_view(out@.push(l)) =~= strs_view(out@).push(l@));
                    assert(strs_view(out@) + (seq![l@] + rest.0) =~= strs_view(out@).push(l@) + rest.0);
                }
                out.push(l);
                i = k;
            },
            None => {
                assert(strs_view(out@) + Seq::<Seq<char>>::empty() =~= strs_view(out@));
                return (out, i);
            },
        }
    }
}

/// A `locations:` field.
fn package_field_locations<'a>(v: &Vec<char>, input: &'a str, i: usize) -> (r: Option<(Vec<&'a str>, usize)>)
    requires
        v@ == input@,
        i <= v.len(),
    ensures
        match r {
            Some((l, k)) => locations_field(v@, i as int) == Some((strs_view(l@), k as int)) && k <= v.len(),
            None => locations_field(v@, i as int) is None,
        },
{
    proof {
        lemma_literals();
    }
    let b = blank_run(v, i);
    if b == 0 || !has_at_exec(v, i + b, "locations:") {
        return None;
    }
    let k = match newline_end_exec(v, i + b + 10) {
        Some(k) => k,
        None => return None,
    };
    let (items, e) = location_items_exec(v, input, k);
    if items.len() > 0 {
        Some((items, e))
    } else {
        None
    }
}

/// Whether `v[a..b]` occurs at `i`.
fn has_slice_at(v: &Vec<char>, i: usize, a: usize, b: usize) -> (r: bool)
    requires
        i <= v.len(),
        a <= b <= v.len(),
    ensures
        r == has_at(v@, i as int, v@.subrange(a as int, b as int)),
{
    let n = b - a;
    if n > v.len() - i {
        return false;
    }
    let mut j: usize = 0;
    while j < n
        invariant
            n == b - a,
            a <= b <= v.len(),
            i + n <= v.len(),
            j <= n,
            v@.subrange(i as int, i + j) =~= v@.subrange(a as int, a + j),
        decreases n - j,
    {
        if v[i + j] != v[a + j] {
            assert(v@.subrange(i as int, i + n)[j as int] != v@.subrange(a as int, b as int)[j as int]);
            return false;
        }
        assert(v@.subrange(i as int, i + j + 1) =~= v@.subrange(i as int, i + j).push(v@[i + j]));
        assert(v@.subrange(a as int, a + j + 1) =~= v@.subrange(a as int, a + j).push(v@[a + j]));
        j = j + 1;
    }
    assert(v@.subrange(i as int, i + n) =~= v@.subrange(a as int, b as int));
    true
}

/// Past the lines that start with the indent `v[a..b]` and then a space or a tab.
fn continuation_lines_exec(v: &Vec<char>, start: usize, a: usize, b: usize) -> (r: usize)
    requires
        start <= v.len(),
        a <= b <= v.len(),
    ensures
        r as int == continuation_lines(v@, start as int, v@.subrange(a as int, b as int)),
        start <= r <= v.len(),
{
    proof {
        lemma_literals();
    }
    let ghost indent = v@.subrange(a as int, b as int);
    let mut i = start;
    loop
        invariant
            start <= i <= v.len(),
            a <= b <= v.len(),
            indent == v@.subrange(a as int, b as int),
            continuation_lines(v@, start as int, indent) == continuation_lines(v@, i as int, indent),
        decreases v.len() - i,
    {
        proof {
            lemma_literals();
        }
        if !has_slice_at(v, i, a, b) {
            return i;
        }
        let w = b - a;
        let c = blank_run(v, i + w);
        if c == 0 {
            return i;
        }
        match first_from_exec(v, i + w + c, "\n") {
            Some(j) => {
                i = j + 1;
            },
            None => {
                return i;
            },
        }
    }
}

/// Any other field.
fn package_field_unknown(v: &Vec<char>, i: usize) -> (r: Option<usize>)
    requires
        i <= v.len(),
    ensures
        match r {
            Some(k) => unknown_field(v@, i as int) == Some(k as int) && k <= v.len(),
            None => unknown_field(v@, i as int) is None,
        },
{
    proof {
        lemma_literals();
    }
    let b = blank_run(v, i);
    if b == 0 {
        return None;
    }
    match first_from_exec(v, i + b, "\n") {
        Some(j) => Some(continuation_lines_exec(v, j + 1, i, i + b)),
        None => None,
    }
}

/// One field of a package.
fn package_field<'a>(v: &Vec<char>, input: &'a str, i: usize) -> (r: Option<(Option<Vec<&'a str>>, usize)>)
    requires
        v@ == input@,
        i <= v.len(),
    ensures
        match r {
            Some((f, k)) => field(v@, i as int) == Some((
                match f {
                    Some(l) => Some(strs_view(l@)),
                    None => None,
                },
                k as int,
            )) && i < k <= v.len(),
            None => field(v@, i as int) is None,
        },
{
    proof {
        lemma_field(v@, i as int);
    }
    match package_field_locations(v, input, i) {
        Some((l, k)) => Some((Some(l), k)),
        None => match package_field_unknown(v, i) {
            Some(k) => Some((None, k)),
            None => None,
        },
    }
}

/// The fields of a package: whether there is one, the locations of the last
/// `locations:` field, and the position after them.
fn fields_exec<'a>(v: &Vec<char>, input: &'a str, start: usize) -> (r: (bool, Option<Vec<&'a str>>, usize))
    requires
        v@ == input@,
        start <= v.len(),
    ensures
        r.0 == (fields(v@, start as int).0 > 0),
        fields(v@, start as int).1 == match r.1 {
            Some(l) => Some(strs_view(l@)),
            None => None::<Seq<Seq<char>>>,
        },
        fields(v@, start as int).2 == r.2 as int,
        start <= r.2 <= v.len(),
{
    let mut any = false;
    let mut last: Option<Vec<&'a str>> = None;
    let mut i = start;
    loop
        invariant
            v@ == input@,
            start <= i <= v.len(),
            any == (i > start),
            ({
                let all = fields(v@, start as int);
                let rest = fields(v@, i as int);
                let lv = match last {
                    Some(l) => Some(strs_view(l@)),
                    None => None::<Seq<Seq<char>>>,
                };
                &&& all.0 > 0 <==> (any || rest.0 > 0)
                &&& all.1 == if rest.1 is Some { rest.1 } else { lv }
                &&& all.2 == rest.2
            }),
        decreases v.len() - i,
    {
        match package_field(v, input, i) {
            Some((f, k)) => {
                if f.is_some() {
                    last = f;
                }
                any = true;
                i = k;
            },
            None => {
                return (any, last, i);
            },
        }
    }
}

/// One package.
fn package_exec<'a>(v: &Vec<char>, input: &'a str, i: usize) -> (r: Option<(Package<'a>, usize)>)
    requires
        v@ == input@,
        i <= v.len(),
    ensures
        match r {
            Some((p, k)) => package(v@, i as int) == Some((p@, k as int)) && i < k <= v.len(),
            None => package(v@, i as int) is None,
        },
{
    proof {
        lemma_literals();
        lemma_package(v@, i as int);
    }
    let i1 = match newline_end_exec(v, i) {
        Some(k) => k,
        None => return None,
    };
    if !has_at_exec(v, i1, "\"") {
        return None;
    }
    let j = match first_from_exec(v, i1 + 1, "\":") {
        Some(j) => j,
        None => return None,
    };
    let k = match newline_end_exec(v, j + 2) {
        Some(k) => k,
        None => return None,
    };
    let (any, last, e) = fields_exec(v, input, k);
    if !any {
        return None;
    }
    let locations = match last {
        Some(l) => l,
        None => Vec::new(),
    };
    proof {
        if fields(v@, k as int).1 is None {
            assert(strs_view(locations@) =~= Seq::<Seq<char>>::empty());
        }
    }
    Some((Package { resolution: input.substring_char(i1 + 1, j), locations }, e))
}

/// As many packages as follow each other.
fn packages_exec<'a>(v: &Vec<char>, input: &'a str, start: usize) -> (r: (Vec<Package<'a>>, usize))
    requires
        v@ == input@,
        start <= v.len(),
    ensures
        packages(v@, start as int) == (packages_view(r.0@), r.1 as int),
        start <= r.1 <= v.len(),
{
    let mut out: Vec<Package<'a>> = Vec::new();
    let mut i = start;
    loop
        invariant
            v@ == input@,
            start <= i <= v.len(),
            packages(v@, start as int) == (
                packages_view(out@) + packages(v@, i as int).0,
                packages(v@, i as int).1,
            ),
        decreases v.len() - i,
    {
        match package_exec(v, input, i) {
            Some((p, k)) => {
                proof {
                    let rest = packages(v@, k as int);
                    assert(packages(v@, i as int) == (seq![p@] + rest.0, rest.1));
                    assert(packages_view(out@.push(p)) =~= packages_view(out@).push(p@));
                    assert(packages_view(out@) + (seq![p@] + rest.0) =~= packages_view(out@).push(p@)
                        + rest.0);
                }
                out.push(p);
                i = k;
            },
            None => {
                assert(packages_view(out@) + Seq::<PackageView>::empty() =~= packages_view(out@));
                return (out, i);
            },
        }
    }
}

} // verus!
