//! The grammar of `.yarn-state.yml`, the install state that yarn writes into
//! `node_modules`, as functions from a position to the position after what was read.
//!
//! The file is a header (comment lines, blank lines, then `__metadata:` with an
//! indented `version: <digits>` and more indented lines), then one or more packages,
//! and nothing else. A package is a blank line, `"<resolution>":`, and one or more
//! indented fields; a `locations:` field lists `- "<path>"` lines, any other field is
//! skipped with the lines indented deeper than it. Each rule takes the first
//! alternative that matches and repeats as often as it matches.

use vstd::prelude::*;

use crate::text::{first_from, has_at, lemma_first_from, run_len};

verus! {

/// A space or a tab.
pub open spec fn blank() -> spec_fn(char) -> bool {
    |c: char| c == ' ' || c == '\t'
}

/// An ASCII decimal digit.
pub open spec fn digit() -> spec_fn(char) -> bool {
    |c: char| '0' <= c <= '9'
}

/// The value of a decimal digit.
pub open spec fn digit_value(c: char) -> int {
    (c as u32) - 48
}

/// The value of a string of decimal digits.
pub open spec fn digits_value(d: Seq<char>) -> int
    decreases d.len(),
{
    if d.len() == 0 {
        0
    } else {
        digits_value(d.drop_last()) * 10 + digit_value(d.last())
    }
}

/// The lengths of the literals of the grammar.
pub proof fn lemma_literals()
    ensures
        "\n"@ =~= seq!['\n'],
        "\r\n"@ =~= seq!['\r', '\n'],
        "#"@ =~= seq!['#'],
        "\""@ =~= seq!['"'],
        "\":"@ =~= seq!['"', ':'],
        "- \""@ =~= seq!['-', ' ', '"'],
        "__metadata:"@.len() == 11,
        "version: "@.len() == 9,
        "locations:"@.len() == 10,
{
    reveal_strlit("\n");
    reveal_strlit("\r\n");
    reveal_strlit("#");
    reveal_strlit("\"");
    reveal_strlit("\":");
    reveal_strlit("- \"");
    reveal_strlit("__metadata:");
    reveal_strlit("version: ");
    reveal_strlit("locations:");
}

/// A line break (`\n` or `\r\n`) at `i`: the position after it.
pub open spec fn newline_end(s: Seq<char>, i: int) -> Option<int> {
    if has_at(s, i, "\n"@) {
        Some(i + 1)
    } else if has_at(s, i, "\r\n"@) {
        Some(i + 2)
    } else {
        None
    }
}

/// Past the lines that start with `#`.
pub open spec fn after_comments(s: Seq<char>, i: int) -> int
    decreases s.len() - i,
{
    if has_at(s, i, "#"@) {
        match first_from(s, i + 1, "\n"@) {
            Some(j) => {
                proof {
                    lemma_literals();
                    lemma_first_from(s, i + 1, "\n"@);
                }
                after_comments(s, j + 1)
            },
            None => i,
        }
    } else {
        i
    }
}

/// Past the empty lines.
pub open spec fn after_blank_lines(s: Seq<char>, i: int) -> int
    decreases s.len() - i,
{
    match newline_end(s, i) {
        Some(k) => {
            proof {
                lemma_literals();
            }
            after_blank_lines(s, k)
        },
        None => i,
    }
}

/// Past the lines that start with a space or a tab.
pub open spec fn after_indented_lines(s: Seq<char>, i: int) -> int
    decreases s.len() - i,
{
    let b = run_len(s, i, blank());
    if b > 0 {
        match first_from(s, i + b, "\n"@) {
            Some(j) => {
                proof {
                    lemma_literals();
                    lemma_first_from(s, i + b, "\n"@);
                }
                after_indented_lines(s, j + 1)
            },
            None => i,
        }
    } else {
        i
    }
}

/// The header: the version as written, and the position after the header.
pub open spec fn header(s: Seq<char>) -> Option<(int, int)> {
    let i0 = after_blank_lines(s, after_comments(s, 0));
    if !has_at(s, i0, "__metadata:"@) {
        None
    } else {
        match newline_end(s, i0 + "__metadata:"@.len()) {
            None => None,
            Some(i1) => {
                let b = run_len(s, i1, blank());
                let i2 = i1 + b;
                if b == 0 || !has_at(s, i2, "version: "@) {
                    None
                } else {
                    let i3 = i2 + "version: "@.len();
                    let d = run_len(s, i3, digit());
                    if d == 0 {
                        None
                    } else {
                        match newline_end(s, i3 + d) {
                            None => None,
                            Some(i5) => Some(
                                (digits_value(s.subrange(i3, i3 + d)), after_indented_lines(s, i5)),
                            ),
                        }
                    }
                }
            },
        }
    }
}

/// An indented `- "<path>"` line: the path and the position after the line.
pub open spec fn location_item(s: Seq<char>, i: int) -> Option<(Seq<char>, int)> {
    let b = run_len(s, i, blank());
    if b == 0 || !has_at(s, i + b, "- \""@) {
        None
    } else {
        let a = i + b + "- \""@.len();
        match first_from(s, a, "\""@) {
            None => None,
            Some(j) => match newline_end(s, j + 1) {
                None => None,
                Some(k) => Some((s.subrange(a, j), k)),
            },
        }
    }
}

pub proof fn lemma_location_item(s: Seq<char>, i: int)
    ensures
        location_item(s, i) matches Some((l, k)) ==> 0 <= i < k <= s.len(),
{
    let b = run_len(s, i, blank());
    lemma_literals();
    lemma_first_from(s, i + b + "- \""@.len(), "\""@);
}

/// As many location lines as follow each other: their paths, and the position after them.
pub open spec fn location_items(s: Seq<char>, i: int) -> (Seq<Seq<char>>, int)
    decreases s.len() - i,
{
    match location_item(s, i) {
        Some((l, k)) => {
            proof {
                lemma_location_item(s, i);
            }
            let (rest, e) = location_items(s, k);
            (seq![l] + rest, e)
        },
        None => (seq![], i),
    }
}

pub proof fn lemma_location_items(s: Seq<char>, i: int)
    ensures
        i <= location_items(s, i).1,
        0 <= i <= s.len() ==> location_items(s, i).1 <= s.len(),
    decreases s.len() - i,
{
    lemma_location_item(s, i);
    if let Some((l, k)) = location_item(s, i) {
        lemma_location_items(s, k);
    }
}

/// A `locations:` field and its lines: the paths, and the position after them.
pub open spec fn locations_field(s: Seq<char>, i: int) -> Option<(Seq<Seq<char>>, int)> {
    let b = run_len(s, i, blank());
    if b == 0 || !has_at(s, i + b, "locations:"@) {
        None
    } else {
        match newline_end(s, i + b + "locations:"@.len()) {
            None => None,
            Some(k) => {
                let (items, e) = location_items(s, k);
                if items.len() > 0 {
                    Some((items, e))
                } else {
                    None
                }
            },
        }
    }
}

/// Past the lines that start with `indent` and then a space or a tab.
pub open spec fn continuation_lines(s: Seq<char>, i: int, indent: Seq<char>) -> int
    decreases s.len() - i,
{
    if has_at(s, i, indent) {
        let b = run_len(s, i + indent.len(), blank());
        if b > 0 {
            match first_from(s, i + indent.len() + b, "\n"@) {
                Some(j) => {
                    proof {
                        lemma_literals();
                        lemma_first_from(s, i + indent.len() + b, "\n"@);
                    }
                    continuation_lines(s, j + 1, indent)
                },
                None => i,
            }
        } else {
            i
        }
    } else {
        i
    }
}

pub proof fn lemma_continuation_lines(s: Seq<char>, i: int, indent: Seq<char>)
    ensures
        i <= continuation_lines(s, i, indent),
        0 <= i <= s.len() ==> continuation_lines(s, i, indent) <= s.len(),
    decreases s.len() - i,
{
    lemma_literals();
    if has_at(s, i, indent) {
        let b = run_len(s, i + indent.len(), blank());
        lemma_first_from(s, i + indent.len() + b, "\n"@);
        if b > 0 {
            if let Some(j) = first_from(s, i + indent.len() + b, "\n"@) {
                lemma_continuation_lines(s, j + 1, indent);
            }
        }
    }
}

/// Any other field: an indented line and the lines indented deeper; the position after them.
pub open spec fn unknown_field(s: Seq<char>, i: int) -> Option<int> {
    let b = run_len(s, i, blank());
    if b == 0 {
        None
    } else {
        match first_from(s, i + b, "\n"@) {
            Some(j) => Some(continuation_lines(s, j + 1, s.subrange(i, i + b))),
            None => None,
        }
    }
}

/// One field: its locations if it is a `locations:` field, and the position after it.
pub open spec fn field(s: Seq<char>, i: int) -> Option<(Option<Seq<Seq<char>>>, int)> {
    match locations_field(s, i) {
        Some((l, k)) => Some((Some(l), k)),
        None => match unknown_field(s, i) {
            Some(k) => Some((None, k)),
            None => None,
        },
    }
}

pub proof fn lemma_field(s: Seq<char>, i: int)
    ensures
        field(s, i) matches Some((f, k)) ==> 0 <= i < k <= s.len(),
{
    lemma_literals();
    let b = run_len(s, i, blank());
    if b > 0 && has_at(s, i + b, "locations:"@) {
        if let Some(k) = newline_end(s, i + b + "locations:"@.len()) {
            lemma_location_items(s, k);
        }
    }
    lemma_first_from(s, i + b, "\n"@);
    if let Some(j) = first_from(s, i + b, "\n"@) {
        lemma_continuation_lines(s, j + 1, s.subrange(i, i + b));
    }
}

/// As many fields as follow each other: how many, the locations of the last
/// `locations:` field among them, and the position after them.
pub open spec fn fields(s: Seq<char>, i: int) -> (nat, Option<Seq<Seq<char>>>, int)
    decreases s.len() - i,
{
    match field(s, i) {
        Some((f, k)) => {
            proof {
                lemma_field(s, i);
            }
            let (n, last, e) = fields(s, k);
            (n + 1, if last is Some { last } else { f }, e)
        },
        None => (0, None, i),
    }
}

pub proof fn lemma_fields(s: Seq<char>, i: int)
    ensures
        i <= fields(s, i).2,
        0 <= i <= s.len() ==> fields(s, i).2 <= s.len(),
    decreases s.len() - i,
{
    lemma_field(s, i);
    if let Some((f, k)) = field(s, i) {
        lemma_fields(s, k);
    }
}

/// A package as the state file lists it: its resolution and where it is installed.
pub type PackageView = (Seq<char>, Seq<Seq<char>>);

/// One package: a blank line, `"<resolution>":`, one or more fields; the package and
/// the position after it. Its locations are those of its last `locations:` field.
pub open spec fn package(s: Seq<char>, i: int) -> Option<(PackageView, int)> {
    match newline_end(s, i) {
        None => None,
        Some(i1) => if !has_at(s, i1, "\""@) {
            None
        } else {
            match first_from(s, i1 + 1, "\":"@) {
                None => None,
                Some(j) => match newline_end(s, j + "\":"@.len()) {
                    None => None,
                    Some(k) => {
                        let (n, last, e) = fields(s, k);
                        if n == 0 {
                            None
                        } else {
                            let locations = match last {
                                Some(l) => l,
                                None => seq![],
                            };
                            Some(((s.subrange(i1 + 1, j), locations), e))
                        }
                    },
                },
            }
        },
    }
}

pub proof fn lemma_package(s: Seq<char>, i: int)
    ensures
        package(s, i) matches Some((p, k)) ==> 0 <= i < k <= s.len(),
{
    lemma_literals();
    if let Some(i1) = newline_end(s, i) {
        lemma_first_from(s, i1 + 1, "\":"@);
        if let Some(j) = first_from(s, i1 + 1, "\":"@) {
            if let Some(k) = newline_end(s, j + "\":"@.len()) {
                lemma_fields(s, k);
            }
        }
    }
}

/// As many packages as follow each other, and the position after them.
pub open spec fn packages(s: Seq<char>, i: int) -> (Seq<PackageView>, int)
    decreases s.len() - i,
{
    match package(s, i) {
        Some((p, k)) => {
            proof {
                lemma_package(s, i);
            }
            let (rest, e) = packages(s, k);
            (seq![p] + rest, e)
        },
        None => (seq![], i),
    }
}

/// The whole file: its version and its packages, where the file follows the grammar,
/// has at least one package and a version that fits in 32 bits.
pub open spec fn state_file(s: Seq<char>) -> Option<(u32, Seq<PackageView>)> {
    match header(s) {
        None => None,
        Some((v, h)) => {
            let (ps, e) = packages(s, h);
            if 0 <= v <= u32::MAX && ps.len() > 0 && e == s.len() {
                Some((v as u32, ps))
            } else {
                None
            }
        },
    }
}

} // verus!
