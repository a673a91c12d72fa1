//! Command-line argument handling.
//!
//! The program takes one path to a puzzle file and optional flags disabling
//! colored output. Parsing the argument list is pure: it either yields a
//! request — which file to load and whether to color — or one of the
//! argument errors. Loading the file, solving and printing are the caller's
//! business; the solver signals an unsolvable puzzle through `Unsolvable`.

use vstd::prelude::*;

verus! {

/// Everything that can go wrong around a solving run.
#[derive(Debug, PartialEq)]
pub enum CliError {
    /// No arguments at all: print usage.
    Usage,
    /// A flag the program does not know.
    UnknownFlag(String),
    /// Not exactly one puzzle path was given; carries how many there were.
    WrongArity(usize),
    /// Loading or decoding the puzzle file failed.
    Other(String),
    /// The search space was exhausted without a solution.
    Unsolvable,
}

/// What a well-formed command line asks for.
#[derive(Debug, PartialEq)]
pub struct CliRequest {
    /// Path of the puzzle file to load.
    pub path: String,
    /// Whether the rendered board should use colors.
    pub color: bool,
}

/// The flags that disable colored output.
pub open spec fn is_no_color_flag(s: Seq<char>) -> bool {
    s =~= "--no-color"@ || s =~= "--no-colors"@ || s =~= "-nc"@
}

/// Any argument that starts with a dash is read as a flag.
pub open spec fn is_flag(s: Seq<char>) -> bool {
    s.len() >= 1 && s[0] == '-'
}

/// A flag the program does not understand.
pub open spec fn is_unknown_flag(s: Seq<char>) -> bool {
    is_flag(s) && !is_no_color_flag(s)
}

/// The character sequences of an argument list.
pub open spec fn arg_views(args: Seq<String>) -> Seq<Seq<char>> {
    Seq::new(args.len(), |i: int| args[i]@)
}

/// The non-flag arguments, in order.
pub open spec fn positionals(vs: Seq<Seq<char>>) -> Seq<Seq<char>>
    decreases vs.len(),
{
    if vs.len() == 0 {
        Seq::empty()
    } else {
        positionals(vs.drop_last()) + (if !is_flag(vs.last()) {
            seq![vs.last()]
        } else {
            Seq::empty()
        })
    }
}

/// Whether some argument asks to disable color.
pub open spec fn asks_no_color(vs: Seq<Seq<char>>) -> bool {
    exists|i: int| 0 <= i < vs.len() && is_no_color_flag(#[trigger] vs[i])
}

/// Whether some argument is an unknown flag.
pub open spec fn has_unknown_flag(vs: Seq<Seq<char>>) -> bool {
    exists|i: int| 0 <= i < vs.len() && is_unknown_flag(#[trigger] vs[i])
}

/// Character-by-character string equality.
fn str_eq(a: &str, b: &str) -> (r: bool)
    ensures
        r == (a@ == b@),
{
    let na = a.unicode_len();
    let nb = b.unicode_len();
    if na != nb {
        return false;
    }
    let mut i: usize = 0;
    while i < na
        invariant
            i <= na,
            na == a@.len(),
            na == b@.len(),
            forall|t: int| 0 <= t < i ==> a@[t] == b@[t],
        decreases na - i,
    {
        if a.get_char(i) != b.get_char(i) {
            return false;
        }
        i = i + 1;
    }
    proof {
        assert(a@ =~= b@);
    }
    true
}

/// Whether `a` is one of the flags that disable color.
fn is_no_color_arg(a: &String) -> (r: bool)
    ensures
        r == is_no_color_flag(a@),
{
    str_eq(a.as_str(), "--no-color") || str_eq(a.as_str(), "--no-colors") || str_eq(
        a.as_str(),
        "-nc",
    )
}

/// Whether `a` starts with a dash.
fn is_flag_arg(a: &String) -> (r: bool)
    ensures
        r == is_flag(a@),
{
    let s = a.as_str();
    s.unicode_len() >= 1 && s.get_char(0) == '-'
}

/// Read the argument list: no arguments ask for usage, the first unknown
/// flag is reported as such, and otherwise exactly one positional path must
/// remain once the color flags are taken out.
pub fn run_cli(args: &[String]) -> (r: Result<CliRequest, CliError>)
    ensures
        ({
            let vs = arg_views(args@);
            match r {
                Ok(req) => {
                    &&& args@.len() > 0
                    &&& !has_unknown_flag(vs)
                    &&& positionals(vs).len() == 1
                    &&& req.path@ == positionals(vs)[0]
                    &&& req.color == !asks_no_color(vs)
                },
                Err(e) => match e {
                    CliError::Usage => args@.len() == 0,
                    CliError::UnknownFlag(f) => exists|i: int|
                        0 <= i < vs.len() && is_unknown_flag(#[trigger] vs[i]) && f@ == vs[i] && (
                        forall|t: int| 0 <= t < i ==> !is_unknown_flag(#[trigger] vs[t])),
                    CliError::WrongArity(n) => {
                        &&& args@.len() > 0
                        &&& !has_unknown_flag(vs)
                        &&& n == positionals(vs).len()
                        &&& n != 1
                    },
                    _ => false,
                },
            }
        }),
{
    let ghost vs = arg_views(args@);
    let n = args.len();
    if n == 0 {
        return Err(CliError::Usage);
    }
    let mut color = true;
    let mut positional: Vec<String> = Vec::new();
    let mut i: usize = 0;
    while i < n
        invariant
            i <= n,
            n == args@.len(),
            vs == arg_views(args@),
            forall|t: int| 0 <= t < i ==> !is_unknown_flag(#[trigger] vs[t]),
            color == !(exists|t: int| 0 <= t < i && is_no_color_flag(#[trigger] vs[t])),
            positional@.len() == positionals(vs.take(i as int)).len(),
            forall|t: int|
                0 <= t < positional@.len() ==> (#[trigger] positional@[t])@ == positionals(
                    vs.take(i as int),
                )[t],
        decreases n - i,
    {
        let a = &args[i];
        proof {
            assert(vs[i as int] == a@);
            assert(vs.take(i + 1).drop_last() =~= vs.take(i as int));
            assert(vs.take(i + 1).last() == vs[i as int]);
        }
        if is_no_color_arg(a) {
            color = false;
            proof {
                reveal_strlit("--no-color");
                reveal_strlit("--no-colors");
                reveal_strlit("-nc");
                assert(is_no_color_flag(vs[i as int]));
                assert(vs[i as int][0] == '-');
                assert(is_flag(vs[i as int]));
            }
        } else if is_flag_arg(a) {
            return Err(CliError::UnknownFlag(a.clone()));
        } else {
            positional.push(a.clone());
        }
        i = i + 1;
    }
    proof {
        assert(vs.take(n as int) =~= vs);
    }
    if positional.len() != 1 {
        return Err(CliError::WrongArity(positional.len()));
    }
    let path = positional[0].clone();
    Ok(CliRequest { path, color })
}

} // verus!
