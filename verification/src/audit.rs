//! Potential problems with a dependency tree: packages without checksums, with
//! weak checksums, or from a source that was not recognized.

use vstd::prelude::*;
use vstd::string::{StrSliceExecFns, StringExecFns};

use crate::chastefile::{refs_view_pkg, Chastefile};
use crate::checksums::{algorithm_rank, HashAlgorithm};
use crate::package::{lemma_pid_eq, pid_at, Package, PackageID};
use crate::text::{seq_lt, str_lt};

verus! {

/// Which check a package fails.
pub enum Check {
    NoChecksums,
    InsecureChecksums,
    UnrecognizedSource,
}

/// The package fails the check.
pub open spec fn fails(p: Package, check: Check) -> bool {
    match check {
        Check::NoChecksums => p.spec_checksums() is None,
        Check::InsecureChecksums => p.spec_checksums() matches Some(c) && algorithm_rank(
            c.spec_integrity()@[0].0,
        ) > algorithm_rank(HashAlgorithm::Sha256),
        Check::UnrecognizedSource => p.spec_source() is None,
    }
}

/// The package with id `pid` belongs to the project: the root or a workspace member.
pub open spec fn is_own(pid: PackageID, root: PackageID, members: Seq<PackageID>) -> bool {
    pid == root || members.contains(pid)
}

/// The packages that fail the check, in order, leaving out the project's own.
pub open spec fn failing(pkgs: Seq<Package>, root: PackageID, members: Seq<PackageID>, check: Check) -> Seq<
    Package,
>
    decreases pkgs.len(),
{
    if pkgs.len() == 0 {
        Seq::empty()
    } else {
        let prev = failing(pkgs.drop_last(), root, members, check);
        if !is_own(pid_at((pkgs.len() - 1) as nat), root, members) && fails(pkgs.last(), check) {
            prev.push(pkgs.last())
        } else {
            prev
        }
    }
}

/// The packages that fail each check of the audit.
pub struct AuditReport<'a> {
    pub checksumless: Vec<&'a Package>,
    pub insufficient_checksums: Vec<&'a Package>,
    pub unknown_source: Vec<&'a Package>,
}

fn contains_pid(v: &Vec<PackageID>, pid: PackageID) -> (b: bool)
    ensures
        b == v@.contains(pid),
{
    let mut i: usize = 0;
    while i < v.len()
        invariant
            i <= v.len(),
            forall|j: int| 0 <= j < i ==> v@[j] != pid,
        decreases v.len() - i,
    {
        if v[i].index() == pid.index() {
            proof {
                lemma_pid_eq(v@[i as int], pid);
            }
            return true;
        }
        i = i + 1;
    }
    false
}

/// Runs the checks on every package that is not the project's own.
pub fn audit<'a, M>(chastefile: &'a Chastefile<M>) -> (r: AuditReport<'a>)
    ensures
        ({
            let pkgs = chastefile.spec_packages();
            let root = chastefile.spec_root();
            let members = chastefile.spec_members();
            &&& refs_view_pkg(r.checksumless@) == failing(pkgs, root, members, Check::NoChecksums)
            &&& refs_view_pkg(r.insufficient_checksums@) == failing(
                pkgs,
                root,
                members,
                Check::InsecureChecksums,
            )
            &&& refs_view_pkg(r.unknown_source@) == failing(
                pkgs,
                root,
                members,
                Check::UnrecognizedSource,
            )
        }),
{
    let ghost pkgs = chastefile.spec_packages();
    let ghost members = chastefile.spec_members();
    let mut checksumless: Vec<&'a Package> = Vec::new();
    let mut insufficient_checksums: Vec<&'a Package> = Vec::new();
    let mut unknown_source: Vec<&'a Package> = Vec::new();
    let root_pid = chastefile.root_package_id();
    let member_pids = chastefile.workspace_member_ids();
    let all = chastefile.packages_with_ids();
    let mut i: usize = 0;
    while i < all.len()
        invariant
            i <= all.len(),
            pkgs == chastefile.spec_packages(),
            members == chastefile.spec_members(),
            root_pid == chastefile.spec_root(),
            member_pids@ == members,
            all@.len() == pkgs.len(),
            forall|k: int|
                #![trigger all@[k]]
                0 <= k < all@.len() ==> all@[k].0.id() == k && *all@[k].1 == pkgs[k],
            refs_view_pkg(checksumless@) == failing(
                pkgs.take(i as int),
                root_pid,
                members,
                Check::NoChecksums,
            ),
            refs_view_pkg(insufficient_checksums@) == failing(
                pkgs.take(i as int),
                root_pid,
                members,
                Check::InsecureChecksums,
            ),
            refs_view_pkg(unknown_source@) == failing(
                pkgs.take(i as int),
                root_pid,
                members,
                Check::UnrecognizedSource,
            ),
        decreases all.len() - i,
    {
        let (pid, package) = all[i];
        let ghost t = pkgs.take(i + 1);
        proof {
            assert(t.drop_last() =~= pkgs.take(i as int));
            assert(t.last() == *package);
            assert(pid == pid_at(i as nat)) by {
                crate::package::lemma_pid_at(i as nat);
                lemma_pid_eq(pid, pid_at(i as nat));
            }
        }
        let is_root = pid.index() == root_pid.index();
        proof {
            if is_root {
                lemma_pid_eq(pid, root_pid);
            }
        }
        let own = is_root || contains_pid(&member_pids, pid);
        assert(own == is_own(pid_at(i as nat), root_pid, members));
        if !own {
            match package.checksums() {
                Some(checksums) => {
                    let algorithm = checksums.integrity().pick_algorithm();
                    if !(algorithm == HashAlgorithm::Sha512 || algorithm == HashAlgorithm::Sha384
                        || algorithm == HashAlgorithm::Sha256) {
                        insufficient_checksums.push(package);
                    }
                },
                None => {
                    checksumless.push(package);
                },
            }
            if package.source().is_none() {
                unknown_source.push(package);
            }
        }
        proof {
            assert(refs_view_pkg(checksumless@) =~= failing(t, root_pid, members, Check::NoChecksums));
            assert(refs_view_pkg(insufficient_checksums@) =~= failing(
                t,
                root_pid,
                members,
                Check::InsecureChecksums,
            ));
            assert(refs_view_pkg(unknown_source@) =~= failing(
                t,
                root_pid,
                members,
                Check::UnrecognizedSource,
            ));
        }
        i = i + 1;
    }
    assert(pkgs.take(all.len() as int) =~= pkgs);
    AuditReport { checksumless, insufficient_checksums, unknown_source }
}


/// The audit lists only packages that fail the check, and never the project's own
/// root or workspace members.
pub proof fn law_audit_lists_failing(
    pkgs: Seq<Package>,
    root: PackageID,
    members: Seq<PackageID>,
    check: Check,
)
    ensures
        forall|p: Package| #[trigger] failing(pkgs, root, members, check).contains(p) ==> fails(p, check),
        failing(pkgs, root, members, check).len() <= pkgs.len(),
    decreases pkgs.len(),
{
    if pkgs.len() > 0 {
        law_audit_lists_failing(pkgs.drop_last(), root, members, check);
        let prev = failing(pkgs.drop_last(), root, members, check);
        assert forall|p: Package| #[trigger] failing(pkgs, root, members, check).contains(p) implies fails(
            p,
            check,
        ) by {
            if !prev.contains(p) {
                let f = failing(pkgs, root, members, check);
                let k = choose|k: int| 0 <= k < f.len() && f[k] == p;
                if k < prev.len() {
                    assert(prev[k] == p);
                }
            }
        }
    }
}


/// The options of the audit.
pub struct Audit {
    /// Failing checks should not give a non-zero exit code.
    pub failures_ok: bool,
}

/// How many of the three checks found a package.
pub open spec fn failed_checks(r: AuditReport) -> nat {
    (if r.checksumless@.len() > 0 { 1nat } else { 0nat }) + (if r.insufficient_checksums@.len() > 0 {
        1nat
    } else {
        0nat
    }) + (if r.unknown_source@.len() > 0 { 1nat } else { 0nat })
}

impl Audit {
    /// The exit code the audit ends with: the number of checks that failed, unless
    /// failures are fine, in which case the audit ends as usual.
    pub fn exit_code(&self, report: &AuditReport) -> (r: Option<u8>)
        ensures
            self.failures_ok ==> r is None,
            !self.failures_ok ==> r == Some(failed_checks(*report) as u8),
    {
        if self.failures_ok {
            return None;
        }
        let mut n: u8 = 0;
        if report.checksumless.len() > 0 {
            n = n + 1;
        }
        if report.insufficient_checksums.len() > 0 {
            n = n + 1;
        }
        if report.unknown_source.len() > 0 {
            n = n + 1;
        }
        Some(n)
    }
}


/// The decimal digit `d`.
pub open spec fn digit_text(d: nat) -> Seq<char> {
    if d == 0 {
        "0"@
    } else if d == 1 {
        "1"@
    } else if d == 2 {
        "2"@
    } else if d == 3 {
        "3"@
    } else if d == 4 {
        "4"@
    } else if d == 5 {
        "5"@
    } else if d == 6 {
        "6"@
    } else if d == 7 {
        "7"@
    } else if d == 8 {
        "8"@
    } else {
        "9"@
    }
}

/// `n` written in decimal.
pub open spec fn decimal(n: nat) -> Seq<char>
    decreases n,
{
    if n < 10 {
        digit_text(n)
    } else {
        decimal(n / 10) + digit_text(n % 10)
    }
}

fn digit_str(d: usize) -> (r: &'static str)
    requires
        d < 10,
    ensures
        r@ == digit_text(d as nat),
{
    if d == 0 {
        "0"
    } else if d == 1 {
        "1"
    } else if d == 2 {
        "2"
    } else if d == 3 {
        "3"
    } else if d == 4 {
        "4"
    } else if d == 5 {
        "5"
    } else if d == 6 {
        "6"
    } else if d == 7 {
        "7"
    } else if d == 8 {
        "8"
    } else {
        "9"
    }
}

/// `n` written in decimal.
pub fn decimal_string(n: usize) -> (r: String)
    ensures
        r@ == decimal(n as nat),
    decreases n,
{
    if n < 10 {
        String::from_str(digit_str(n))
    } else {
        let mut s = decimal_string(n / 10);
        s.append(digit_str(n % 10));
        s
    }
}

/// The text that stands for a package's name in the report.
pub open spec fn report_name(p: Package) -> Seq<char> {
    match p.spec_name() {
        Some(n) => n,
        None => "[unnamed]"@,
    }
}

/// Where `x` goes in `s`: before the first element above it.
pub open spec fn name_pos(s: Seq<Seq<char>>, x: Seq<char>, i: int) -> int
    decreases s.len() - i,
{
    if i < 0 || i >= s.len() {
        s.len() as int
    } else if seq_lt(x, s[i]) {
        i
    } else {
        name_pos(s, x, i + 1)
    }
}

/// The names in ascending order, each put in its place in turn.
pub open spec fn sorted_names(s: Seq<Seq<char>>) -> Seq<Seq<char>>
    decreases s.len(),
{
    if s.len() == 0 {
        Seq::empty()
    } else {
        let prev = sorted_names(s.drop_last());
        prev.insert(name_pos(prev, s.last(), 0), s.last())
    }
}

/// The names joined with spaces.
pub open spec fn join_names(s: Seq<Seq<char>>) -> Seq<char>
    decreases s.len(),
{
    if s.len() == 0 {
        Seq::empty()
    } else if s.len() == 1 {
        s[0]
    } else {
        join_names(s.drop_last()) + " "@ + s.last()
    }
}

/// What the report calls the problem each check looks for.
pub open spec fn check_desc(c: Check) -> Seq<char> {
    match c {
        Check::NoChecksums => "no checksums"@,
        Check::InsecureChecksums => "insecure checksums"@,
        Check::UnrecognizedSource => "unrecognized source"@,
    }
}

/// The line of a check that no package fails.
pub open spec fn passed_line(c: Check) -> Seq<char> {
    "✅ No packages with "@ + check_desc(c)
}

/// The line of a check that packages fail: how many, and their names in ascending
/// order.
pub open spec fn failed_line(c: Check, failed: Seq<Package>) -> Seq<char> {
    "❌ "@ + decimal(failed.len()) + " package"@ + (if failed.len() == 1 {
        Seq::<char>::empty()
    } else {
        "s"@
    }) + " with "@ + check_desc(c) + ":\n\t"@ + join_names(
        sorted_names(failed.map_values(|p: Package| report_name(p))),
    )
}

/// The lines of the checks that no package fails, in order.
pub open spec fn passed_lines(lists: Seq<(Check, Seq<Package>)>) -> Seq<Seq<char>>
    decreases lists.len(),
{
    if lists.len() == 0 {
        Seq::empty()
    } else if lists.last().1.len() == 0 {
        passed_lines(lists.drop_last()).push(passed_line(lists.last().0))
    } else {
        passed_lines(lists.drop_last())
    }
}

/// The lines of the checks that packages fail, in order.
pub open spec fn failed_lines(lists: Seq<(Check, Seq<Package>)>) -> Seq<Seq<char>>
    decreases lists.len(),
{
    if lists.len() == 0 {
        Seq::empty()
    } else if lists.last().1.len() > 0 {
        failed_lines(lists.drop_last()).push(failed_line(lists.last().0, lists.last().1))
    } else {
        failed_lines(lists.drop_last())
    }
}

/// The checks of a report, in order, with the packages that fail each.
pub open spec fn report_checks(r: AuditReport) -> Seq<(Check, Seq<Package>)> {
    seq![
        (Check::NoChecksums, refs_view_pkg(r.checksumless@)),
        (Check::InsecureChecksums, refs_view_pkg(r.insufficient_checksums@)),
        (Check::UnrecognizedSource, refs_view_pkg(r.unknown_source@)),
    ]
}

/// The lines that report an audit of `total` packages: a summary ("All good!" when
/// every check passed), then the checks that passed, then those that failed, each
/// group in the order of the checks.
pub open spec fn report_lines(r: AuditReport, total: nat) -> Seq<Seq<char>> {
    let head = (if failed_checks(r) == 0 {
        "All good! "@
    } else {
        Seq::<char>::empty()
    }) + "Out of "@ + decimal(total) + " dependencies:"@;
    seq![head] + passed_lines(report_checks(r)) + failed_lines(report_checks(r))
}

pub open spec fn strings_view(v: Seq<String>) -> Seq<Seq<char>> {
    v.map_values(|x: String| x@)
}

pub open spec fn strs_view(v: Seq<&str>) -> Seq<Seq<char>> {
    v.map_values(|x: &str| x@)
}

/// The names of the packages, in ascending order (see [`sorted_names`]).
fn names_sorted<'a>(v: &Vec<&'a Package>) -> (r: Vec<&'a str>)
    ensures
        strs_view(r@) == sorted_names(refs_view_pkg(v@).map_values(|p: Package| report_name(p))),
{
    let ghost names = refs_view_pkg(v@).map_values(|p: Package| report_name(p));
    let mut out: Vec<&'a str> = Vec::new();
    let mut k: usize = 0;
    assert(names.take(0) =~= Seq::<Seq<char>>::empty());
    assert(strs_view(out@) =~= Seq::<Seq<char>>::empty());
    while k < v.len()
        invariant
            k <= v@.len(),
            names == refs_view_pkg(v@).map_values(|p: Package| report_name(p)),
            strs_view(out@) == sorted_names(names.take(k as int)),
        decreases v@.len() - k,
    {
        proof {
            reveal_strlit("[unnamed]");
        }
        let x: &'a str = match v[k].name() {
            Some(n) => n.as_str(),
            None => "[unnamed]",
        };
        assert(x@ == names[k as int]);
        let ghost sv = strs_view(out@);
        let mut i: usize = 0;
        while i < out.len() && !str_lt(x, out[i])
            invariant
                i <= out@.len(),
                sv == strs_view(out@),
                name_pos(sv, x@, 0) == name_pos(sv, x@, i as int),
            decreases out@.len() - i,
        {
            assert(sv[i as int] == out@[i as int]@);
            i = i + 1;
        }
        if i < out.len() {
            assert(sv[i as int] == out@[i as int]@);
        }
        out.insert(i, x);
        proof {
            assert(names.take(k + 1).drop_last() =~= names.take(k as int));
            assert(names.take(k + 1).last() == x@);
            assert(strs_view(out@) =~= sv.insert(i as int, x@));
        }
        k = k + 1;
    }
    assert(names.take(v@.len() as int) =~= names);
    out
}

/// The names joined with spaces.
fn join_exec(v: &Vec<&str>) -> (r: String)
    ensures
        r@ == join_names(strs_view(v@)),
{
    let mut s = String::new();
    let mut k: usize = 0;
    proof {
        reveal_strlit(" ");
    }
    assert(strs_view(v@).take(0) =~= Seq::<Seq<char>>::empty());
    while k < v.len()
        invariant
            k <= v@.len(),
            s@ == join_names(strs_view(v@).take(k as int)),
        decreases v@.len() - k,
    {
        let ghost t = strs_view(v@).take(k + 1);
        assert(t.drop_last() =~= strs_view(v@).take(k as int));
        assert(t.last() == v@[k as int]@);
        if k > 0 {
            s.append(" ");
        } else {
            assert(join_names(strs_view(v@).take(0)) =~= Seq::<char>::empty());
        }
        s.append(v[k]);
        proof {
            if k == 0 {
                assert(s@ =~= v@[0]@);
            }
        }
        k = k + 1;
    }
    assert(strs_view(v@).take(v@.len() as int) =~= strs_view(v@));
    s
}

fn check_desc_str(c: &Check) -> (r: &'static str)
    ensures
        r@ == check_desc(*c),
{
    match c {
        Check::NoChecksums => "no checksums",
        Check::InsecureChecksums => "insecure checksums",
        Check::UnrecognizedSource => "unrecognized source",
    }
}

fn passed_line_exec(c: &Check) -> (r: String)
    ensures
        r@ == passed_line(*c),
{
    let mut s = String::from_str("✅ No packages with ");
    s.append(check_desc_str(c));
    s
}

fn failed_line_exec(c: &Check, failed: &Vec<&Package>) -> (r: String)
    ensures
        r@ == failed_line(*c, refs_view_pkg(failed@)),
{
    let mut s = String::from_str("❌ ");
    s.append(decimal_string(failed.len()).as_str());
    s.append(" package");
    proof {
        reveal_strlit("");
    }
    if failed.len() != 1 {
        s.append("s");
    } else {
        s.append("");
    }
    s.append(" with ");
    s.append(check_desc_str(c));
    s.append(":\n\t");
    let names = names_sorted(failed);
    s.append(join_exec(&names).as_str());
    s
}

/// The lines that report an audit of `total` packages (see [`report_lines`]).
pub fn report_lines_exec(report: &AuditReport, total: usize) -> (r: Vec<String>)
    ensures
        strings_view(r@) == report_lines(*report, total as nat),
{
    let ghost checks = report_checks(*report);
    let cs: Vec<(Check, &Vec<&Package>)> = vec![
        (Check::NoChecksums, &report.checksumless),
        (Check::InsecureChecksums, &report.insufficient_checksums),
        (Check::UnrecognizedSource, &report.unknown_source),
    ];
    let all_pass = report.checksumless.len() == 0 && report.insufficient_checksums.len() == 0
        && report.unknown_source.len() == 0;
    let mut head = if all_pass {
        String::from_str("All good! ")
    } else {
        String::new()
    };
    head.append("Out of ");
    head.append(decimal_string(total).as_str());
    head.append(" dependencies:");
    let mut lines: Vec<String> = vec![head];
    let ghost first = strings_view(lines@);
    let mut k: usize = 0;
    while k < cs.len()
        invariant
            k <= cs@.len(),
            cs@.len() == 3,
            checks.len() == 3,
            forall|j: int| 0 <= j < 3 ==> (#[trigger] cs@[j]).0 == checks[j].0 && refs_view_pkg(cs@[j].1@) == checks[j].1,
            strings_view(lines@) == first + passed_lines(checks.take(k as int)),
        decreases cs@.len() - k,
    {
        assert(checks.take(k + 1).drop_last() =~= checks.take(k as int));
        assert(checks.take(k + 1).last() == checks[k as int]);
        assert(cs@[k as int].0 == checks[k as int].0 && refs_view_pkg(cs@[k as int].1@) == checks[k as int].1);
        assert(refs_view_pkg(cs@[k as int].1@).len() == cs@[k as int].1@.len());
        let ghost before = lines@;
        if cs[k].1.len() == 0 {
            let line = passed_line_exec(&cs[k].0);
            lines.push(line);
            assert(strings_view(lines@) =~= strings_view(before).push(line@));
        } else {
            assert(lines@ == before);
        }
        assert(strings_view(lines@) =~= first + passed_lines(checks.take(k + 1)));
        k = k + 1;
    }
    let ghost second = strings_view(lines@);
    let mut k: usize = 0;
    while k < cs.len()
        invariant
            k <= cs@.len(),
            cs@.len() == 3,
            checks.len() == 3,
            forall|j: int| 0 <= j < 3 ==> (#[trigger] cs@[j]).0 == checks[j].0 && refs_view_pkg(cs@[j].1@) == checks[j].1,
            strings_view(lines@) == second + failed_lines(checks.take(k as int)),
        decreases cs@.len() - k,
    {
        assert(checks.take(k + 1).drop_last() =~= checks.take(k as int));
        assert(checks.take(k + 1).last() == checks[k as int]);
        assert(cs@[k as int].0 == checks[k as int].0 && refs_view_pkg(cs@[k as int].1@) == checks[k as int].1);
        assert(refs_view_pkg(cs@[k as int].1@).len() == cs@[k as int].1@.len());
        let ghost before = lines@;
        if cs[k].1.len() > 0 {
            let line = failed_line_exec(&cs[k].0, cs[k].1);
            lines.push(line);
            assert(strings_view(lines@) =~= strings_view(before).push(line@));
        } else {
            assert(lines@ == before);
        }
        assert(strings_view(lines@) =~= second + failed_lines(checks.take(k + 1)));
        k = k + 1;
    }
    assert(checks.take(3) =~= checks);
    assert(strings_view(lines@) =~= report_lines(*report, total as nat));
    lines
}

proof fn lemma_name_pos(s: Seq<Seq<char>>, x: Seq<char>, i: int)
    requires
        0 <= i <= s.len(),
    ensures
        i <= name_pos(s, x, i) <= s.len(),
        forall|j: int| i <= j < name_pos(s, x, i) ==> !seq_lt(x, #[trigger] s[j]),
        name_pos(s, x, i) < s.len() ==> seq_lt(x, s[name_pos(s, x, i)]),
    decreases s.len() - i,
{
    if i < s.len() && !seq_lt(x, s[i]) {
        lemma_name_pos(s, x, i + 1);
    }
}

/// The names of a report come in ascending order, each name as often as given.
pub proof fn law_sorted_names(s: Seq<Seq<char>>)
    ensures
        forall|i: int, j: int| 0 <= i < j < sorted_names(s).len() ==> !seq_lt(#[trigger] sorted_names(s)[j], #[trigger] sorted_names(s)[i]),
        sorted_names(s).to_multiset() == s.to_multiset(),
    decreases s.len(),
{
    if s.len() > 0 {
        let prev = sorted_names(s.drop_last());
        let x = s.last();
        law_sorted_names(s.drop_last());
        lemma_name_pos(prev, x, 0);
        let p = name_pos(prev, x, 0);
        let r = prev.insert(p, x);
        assert(s =~= s.drop_last().push(x));
        vstd::seq_lib::to_multiset_insert(prev, p, x);
        vstd::seq_lib::to_multiset_build(s.drop_last(), x);
        assert(r.to_multiset() == s.to_multiset());
        assert forall|i: int, j: int| 0 <= i < j < r.len() implies !seq_lt(#[trigger] r[j], #[trigger] r[i]) by {
            crate::text::lemma_seq_lt_total(r[i], r[j]);
            if j < p {
                assert(!seq_lt(prev[j], prev[i]));
            } else if j == p {
                assert(!seq_lt(x, prev[i]));
            } else if i == p {
                // x is below prev[p], which is not above any later name
                crate::text::lemma_seq_lt_total(prev[p], prev[j - 1]);
                if j - 1 > p {
                    assert(!seq_lt(prev[j - 1], prev[p]));
                }
                if seq_lt(prev[j - 1], x) {
                    crate::text::lemma_seq_lt_trans(prev[j - 1], x, prev[p]);
                    crate::text::lemma_seq_lt_total(prev[p], prev[p]);
                }
            } else if i < p {
                assert(!seq_lt(prev[j - 1], prev[i]));
            } else {
                assert(!seq_lt(prev[j - 1], prev[i - 1]));
            }
        }
    } else {
        assert(s =~= Seq::<Seq<char>>::empty());
        assert(sorted_names(s) =~= Seq::<Seq<char>>::empty());
    }
}

} // verus!
