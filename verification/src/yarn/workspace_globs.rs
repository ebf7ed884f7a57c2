//! Choosing the workspace members by the `"workspaces"` patterns of the root
//! `package.json`.

use vstd::prelude::*;

use crate::yarn::zpm_types::strs_view;
use crate::yarn::Error;

verus! {

#[verifier::external_type_specification]
#[verifier::external_body]
pub struct ExGlobreeks(globreeks::Globreeks);

/// The patterns a glob set was made from, in order.
pub uninterp spec fn glob_patterns(g: globreeks::Globreeks) -> Seq<Seq<char>>;

/// Whether a pattern excludes: it starts with `!`.
pub open spec fn pattern_negative(p: Seq<char>) -> bool {
    p.len() > 0 && p[0] == '!'
}

/// The glob of a pattern: the pattern without its leading `!`.
pub open spec fn pattern_glob(p: Seq<char>) -> Seq<char> {
    if pattern_negative(p) {
        p.subrange(1, p.len() as int)
    } else {
        p
    }
}

/// Whether `globset` accepts the glob (`Glob::new`).
pub uninterp spec fn glob_parses(glob: Seq<char>) -> bool;

/// Whether the glob, compiled by `globset`, matches the path.
pub uninterp spec fn glob_hit(glob: Seq<char>, path: Seq<char>) -> bool;

/// The glob parser accepts every pattern (each with a leading `!` taken off).
pub open spec fn globs_parse(ws: Seq<Seq<char>>) -> bool {
    forall|i: int| 0 <= i < ws.len() ==> glob_parses(pattern_glob(#[trigger] ws[i]))
}

/// The patterns select the path: the last pattern whose glob matches it decides,
/// selecting it unless the pattern starts with `!`; a path that no glob matches is
/// not selected.
pub open spec fn globs_match(ws: Seq<Seq<char>>, path: Seq<char>) -> bool {
    exists|i: int|
        0 <= i < ws.len() && glob_hit(pattern_glob(#[trigger] ws[i]), path) && !pattern_negative(ws[i])
            && forall|j: int| i < j < ws.len() ==> !glob_hit(pattern_glob(#[trigger] ws[j]), path)
}

/// Makes a glob set with `globreeks::Globreeks::new`. Trusted: it succeeds exactly
/// when `globset` accepts the glob of every pattern, and the set is made of the
/// patterns in order; a refusal is reported as the parser's message.
#[verifier::external_body]
fn glob_set(ws: &Vec<String>) -> (r: Result<globreeks::Globreeks, String>)
    ensures
        r is Ok <==> forall|i: int| 0 <= i < ws@.len() ==> glob_parses(pattern_glob(#[trigger] ws@[i]@)),
        r matches Ok(g) ==> glob_patterns(g) == strs_view(ws@),
{
    globreeks::Globreeks::new(ws.iter()).map_err(|e| e.to_string())
}

/// Checks a path with `globreeks::Globreeks::evaluate`. Trusted: it walks the
/// patterns from the last one; the first whose glob matches the path decides,
/// selecting it unless that pattern starts with `!`; no match does not select.
#[verifier::external_body]
fn glob_selects(g: &globreeks::Globreeks, path: &str) -> (b: bool)
    ensures
        b <==> exists|i: int|
            0 <= i < glob_patterns(*g).len() && glob_hit(pattern_glob(#[trigger] glob_patterns(*g)[i]), path@)
                && !pattern_negative(glob_patterns(*g)[i]) && forall|j: int|
                i < j < glob_patterns(*g).len() ==> !glob_hit(pattern_glob(#[trigger] glob_patterns(*g)[j]), path@),
{
    g.evaluate(path)
}

/// The directories among `dirs` (paths relative to the root, in the order in which
/// they were found) that the patterns `workspaces` select, in the same order.
pub fn workspace_dirs(workspaces: &Vec<String>, dirs: &Vec<String>) -> (r: Result<Vec<String>, Error>)
    ensures
        match r {
            Ok(v) => globs_parse(strs_view(workspaces@)) && strs_view(v@) == strs_view(dirs@).filter(
                |d: Seq<char>| globs_match(strs_view(workspaces@), d),
            ),
            Err(e) => !globs_parse(strs_view(workspaces@)) && e is GlobreeksError,
        },
{
    let g = match glob_set(workspaces) {
        Ok(g) => g,
        Err(m) => {
            proof {
                let i = choose|i: int| 0 <= i < workspaces@.len() && !glob_parses(pattern_glob(#[trigger] workspaces@[i]@));
                assert(strs_view(workspaces@)[i] == workspaces@[i]@);
            }
            return Err(Error::GlobreeksError(m));
        },
    };
    proof {
        assert forall|i: int| 0 <= i < strs_view(workspaces@).len() implies glob_parses(pattern_glob(#[trigger] strs_view(workspaces@)[i])) by {
            assert(strs_view(workspaces@)[i] == workspaces@[i]@);
        }
    }
    let ghost wv = strs_view(workspaces@);
    let ghost dv = strs_view(dirs@);
    let ghost pred = |d: Seq<char>| globs_match(wv, d);
    let mut out: Vec<String> = Vec::new();
    let mut i: usize = 0;
    proof {
        reveal(Seq::filter);
        assert(dv.take(0) =~= Seq::<Seq<char>>::empty());
    }
    while i < dirs.len()
        invariant
            i <= dirs.len(),
            wv == strs_view(workspaces@),
            dv == strs_view(dirs@),
            glob_patterns(g) == wv,
            pred == (|d: Seq<char>| globs_match(wv, d)),
            strs_view(out@) == dv.take(i as int).filter(pred),
        decreases dirs.len() - i,
    {
        proof {
            reveal(Seq::filter);
            assert(dv.take(i + 1).drop_last() =~= dv.take(i as int));
        }
        assert(dv[i as int] == dirs@[i as int]@);
        if glob_selects(&g, dirs[i].as_str()) {
            let ghost prev = out@;
            out.push(dirs[i].clone());
            assert(strs_view(out@) =~= strs_view(prev).push(dirs@[i as int]@));
        }
        i = i + 1;
    }
    assert(dv.take(i as int) =~= dv);
    Ok(out)
}

} // verus!
