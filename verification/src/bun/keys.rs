//! Keys and descriptors of bun's `packages`.

use vstd::prelude::*;
use vstd::string::StrSliceExecFns;

use crate::bun::Error;
use crate::name::{package_name_at, package_name_at_exec};
use crate::text::chars_of;

verus! {

/// The spans of the parent names at the start of a key, read from `i`: as many
/// package names as can be read, each followed by `/`.
pub open spec fn key_parents(s: Seq<char>, i: int) -> Seq<(int, int)>
    decreases s.len() - i,
{
    if 0 <= i <= s.len() {
        match package_name_at(s, i) {
            Some(p) => if p.total_length > 0 && i + p.total_length < s.len() && s[i
                + p.total_length] == '/' {
                seq![(i, i + p.total_length)] + key_parents(s, i + p.total_length + 1)
            } else {
                Seq::empty()
            },
            None => Seq::empty(),
        }
    } else {
        Seq::empty()
    }
}

/// Where the installed name starts: after the last parent's `/`.
pub open spec fn key_name_start(s: Seq<char>) -> int {
    let ps = key_parents(s, 0);
    if ps.len() == 0 {
        0
    } else {
        ps.last().1 + 1
    }
}

/// A key is parent names, each followed by `/`, then the installed package's name.
pub open spec fn is_package_key(s: Seq<char>) -> bool {
    let j = key_name_start(s);
    package_name_at(s, j) matches Some(p) && j + p.total_length == s.len()
}

/// The parents of a key, when it has any: the text they span and their names.
pub open spec fn key_source(s: Seq<char>) -> Option<(Seq<char>, Seq<Seq<char>>)> {
    let ps = key_parents(s, 0);
    if ps.len() == 0 {
        None
    } else {
        Some(
            (
                s.subrange(0, ps.last().1),
                ps.map_values(|sp: (int, int)| s.subrange(sp.0, sp.1)),
            ),
        )
    }
}

/// The name of the package installed under a key.
pub open spec fn key_name(s: Seq<char>) -> Seq<char> {
    s.subrange(key_name_start(s), s.len() as int)
}

pub open spec fn source_key_view(o: Option<(&str, Vec<&str>)>) -> Option<(Seq<char>, Seq<Seq<char>>)> {
    match o {
        Some((a, v)) => Some((a@, v@.map_values(|x: &str| x@))),
        None => None,
    }
}

/// Splits a key such as `socket.io/debug/ms` into its parents (`socket.io/debug`,
/// made of `socket.io` and `debug`) and the installed package's name (`ms`).
pub fn parse_package_key<'a>(input: &'a str) -> (r: Result<(Option<(&'a str, Vec<&'a str>)>, &'a str), Error>)
    ensures
        match r {
            Ok((src, name)) => is_package_key(input@) && source_key_view(src) == key_source(input@)
                && name@ == key_name(input@),
            Err(e) => !is_package_key(input@) && (e matches Error::InvalidKey(k) && k@ == input@),
        },
{
    let v = chars_of(input);
    let n = v.len();
    let mut i: usize = 0;
    let mut parents: Vec<&'a str> = Vec::new();
    let ghost mut spans: Seq<(int, int)> = Seq::empty();
    let mut done = false;
    while !done
        invariant
            v@ == input@,
            n == v@.len(),
            i <= n,
            spans + key_parents(v@, i as int) == key_parents(v@, 0),
            done ==> key_parents(v@, i as int) == Seq::<(int, int)>::empty(),
            parents@.len() == spans.len(),
            forall|k: int|
                0 <= k < spans.len() ==> 0 <= (#[trigger] spans[k]).0 <= spans[k].1 < n
                    && parents@[k]@ == v@.subrange(spans[k].0, spans[k].1),
            spans.len() == 0 ==> i == 0,
            spans.len() > 0 ==> i == spans.last().1 + 1,
        decreases n - i, if done { 0int } else { 1int },
    {
        match package_name_at_exec(&v, i) {
            Some(p) => {
                let end = i + p.total_length;
                if p.total_length > 0 && end < n && v[end] == '/' {
                    parents.push(input.substring_char(i, end));
                    proof {
                        assert(key_parents(v@, i as int) == seq![(i as int, end as int)] + key_parents(
                            v@,
                            end + 1,
                        ));
                        spans = spans.push((i as int, end as int));
                        assert(spans + key_parents(v@, end + 1) =~= key_parents(v@, 0));
                    }
                    i = end + 1;
                } else {
                    done = true;
                }
            },
            None => {
                done = true;
            },
        }
    }
    assert(spans =~= key_parents(v@, 0));
    match package_name_at_exec(&v, i) {
        Some(p) => {
            if i + p.total_length == n {
                let name = input.substring_char(i, n);
                if parents.len() == 0 {
                    return Ok((None, name));
                }
                let src = input.substring_char(0, i - 1);
                proof {
                    let pv = parents@.map_values(|x: &str| x@);
                    assert(pv =~= spans.map_values(|sp: (int, int)| v@.subrange(sp.0, sp.1)));
                }
                Ok((Some((src, parents)), name))
            } else {
                Err(Error::InvalidKey(input.to_owned()))
            }
        },
        None => Err(Error::InvalidKey(input.to_owned())),
    }
}

/// A descriptor is a package name, `@`, and a source/version marker.
pub open spec fn spec_parse_descriptor(s: Seq<char>) -> Option<(Seq<char>, Seq<char>)> {
    match package_name_at(s, 0) {
        Some(p) => if p.total_length < s.len() && s[p.total_length as int] == '@' {
            Some((s.subrange(0, p.total_length as int), s.subrange(p.total_length + 1 as int, s.len() as int)))
        } else {
            None
        },
        None => None,
    }
}

/// Splits a descriptor such as `nop@1.0.0` into the name and the marker.
pub fn parse_descriptor(input: &str) -> (r: Result<(&str, &str), Error>)
    ensures
        match r {
            Ok((name, marker)) => spec_parse_descriptor(input@) == Some((name@, marker@)),
            Err(e) => spec_parse_descriptor(input@) is None && (e matches Error::InvalidKey(k) && k@
                == input@),
        },
{
    let v = chars_of(input);
    match package_name_at_exec(&v, 0) {
        Some(p) => {
            if p.total_length < v.len() && v[p.total_length] == '@' {
                Ok(
                    (
                        input.substring_char(0, p.total_length),
                        input.substring_char(p.total_length + 1, v.len()),
                    ),
                )
            } else {
                Err(Error::InvalidKey(input.to_owned()))
            }
        },
        None => Err(Error::InvalidKey(input.to_owned())),
    }
}


/// A descriptor is its package name, `@`, and its marker.
pub proof fn law_descriptor_round_trip(s: Seq<char>)
    requires
        spec_parse_descriptor(s) is Some,
    ensures
        match spec_parse_descriptor(s) {
            Some((name, marker)) => s == name + "@"@ + marker,
            None => false,
        },
{
    reveal_strlit("@");
    let p = package_name_at(s, 0)->0;
    assert(s =~= s.subrange(0, p.total_length as int) + "@"@ + s.subrange(
        p.total_length + 1 as int,
        s.len() as int,
    ));
}

/// A key is the text of its parents, `/`, and the installed name; or only the name.
pub proof fn law_key_round_trip(s: Seq<char>)
    requires
        is_package_key(s),
    ensures
        s == match key_source(s) {
            Some((src, _)) => src + "/"@ + key_name(s),
            None => key_name(s),
        },
{
    reveal_strlit("/");
    lemma_key_parents_end(s, 0);
    let ps = key_parents(s, 0);
    if ps.len() == 0 {
        assert(s.subrange(0, s.len() as int) =~= s);
    } else {
        let e = ps.last().1;
        assert(s =~= s.subrange(0, e) + "/"@ + s.subrange(e + 1, s.len() as int));
    }
}

/// After the parents read from `i`, when there are any, comes a `/`.
proof fn lemma_key_parents_end(s: Seq<char>, i: int)
    ensures
        key_parents(s, i).len() > 0 ==> {
            let e = key_parents(s, i).last().1;
            0 <= e < s.len() && s[e] == '/'
        },
    decreases s.len() - i,
{
    if 0 <= i <= s.len() {
        match package_name_at(s, i) {
            Some(p) => if p.total_length > 0 && i + p.total_length < s.len() && s[i
                + p.total_length] == '/' {
                let rest = key_parents(s, i + p.total_length + 1);
                lemma_key_parents_end(s, i + p.total_length + 1);
                if rest.len() > 0 {
                    assert(key_parents(s, i).last() == rest.last());
                }
            },
            None => {},
        }
    }
}

} // verus!
