//! What a package manager says about itself in its lockfile.

use vstd::prelude::*;
use vstd::string::StringExecFns;

verus! {

/// The version of a lockfile format, as the package manager writes it.
#[derive(Debug, Clone, PartialEq, Eq, PartialOrd, Ord)]
pub enum LockfileVersion<'m> {
    U8(u8),
    Str(&'m str),
}

/// The decimal digit `d`.
pub open spec fn digit_char(d: nat) -> char {
    ((d + 48) as u32) as char
}

/// The decimal notation of `n`, without leading zeros.
pub open spec fn decimal(n: nat) -> Seq<char>
    decreases n,
{
    if n < 10 {
        seq![digit_char(n)]
    } else {
        decimal(n / 10).push(digit_char(n % 10))
    }
}

/// The text of a lockfile version.
pub open spec fn version_text(v: LockfileVersion) -> Seq<char> {
    match v {
        LockfileVersion::U8(n) => decimal(n as nat),
        LockfileVersion::Str(s) => s@,
    }
}

fn digit_str(d: u8) -> (r: &'static str)
    requires
        d < 10,
    ensures
        r@ == seq![digit_char(d as nat)],
{
    proof {
        reveal_strlit("0");
        reveal_strlit("1");
        reveal_strlit("2");
        reveal_strlit("3");
        reveal_strlit("4");
        reveal_strlit("5");
        reveal_strlit("6");
        reveal_strlit("7");
        reveal_strlit("8");
        reveal_strlit("9");
    }
    let r = match d {
        0 => "0",
        1 => "1",
        2 => "2",
        3 => "3",
        4 => "4",
        5 => "5",
        6 => "6",
        7 => "7",
        8 => "8",
        _ => "9",
    };
    assert(r@ =~= seq![digit_char(d as nat)]);
    r
}

/// Appends the decimal notation of `n`.
fn push_decimal(out: &mut String, n: u8)
    ensures
        final(out)@ == old(out)@ + decimal(n as nat),
    decreases n,
{
    if n >= 10 {
        push_decimal(out, n / 10);
    }
    out.append(digit_str(n % 10));
    proof {
        if n >= 10 {
            assert(decimal(n as nat) == decimal((n / 10) as nat).push(digit_char((n % 10) as nat)));
        } else {
            assert(decimal(n as nat) == seq![digit_char(n as nat)]);
        }
    }
}

impl<'m> LockfileVersion<'m> {
    /// The version as text: a number in decimal, or the string as written.
    pub fn to_string(&self) -> (r: String)
        ensures
            r@ == version_text(*self),
    {
        match self {
            LockfileVersion::U8(n) => {
                let mut out = String::new();
                push_decimal(&mut out, *n);
                assert(out@ =~= decimal(*n as nat));
                out
            },
            LockfileVersion::Str(s) => String::from_str(s),
        }
    }
}

/// Names the package manager that wrote a lockfile, and the lockfile's version.
pub trait ProviderMeta {
    fn provider_name(&self) -> &'static str;

    fn lockfile_version<'m>(&'m self) -> Option<LockfileVersion<'m>>;
}

impl ProviderMeta for () {
    fn provider_name(&self) -> (r: &'static str)
        ensures
            r@ == "()"@,
    {
        "()"
    }

    fn lockfile_version<'m>(&'m self) -> (r: Option<LockfileVersion<'m>>)
        ensures
            r is None,
    {
        None
    }
}

} // verus!
