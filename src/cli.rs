//! Sorting of command-line arguments.

use crate::transcode::{markers_view, word_eq};
use vstd::prelude::*;

verus! {

/// The lower-case form of a string, as Unicode defines it.
pub uninterp spec fn lower_of(s: Seq<char>) -> Seq<char>;

/// Relies on `str::to_lowercase`: its result depends on the characters of
/// the string alone.
#[verifier::external_body]
fn lowercase(s: &str) -> (r: String)
    ensures
        r@ == lower_of(s@),
{
    s.to_lowercase()
}

/// What an argument asks for.
#[derive(Clone, Copy, Debug, PartialEq, Eq, Structural)]
pub enum ArgKind {
    /// `--help` or `-h`: print the usage and stop.
    Help,
    /// `--preformat-failure-is-warning`: a formatter failure on a file that
    /// has not been rewritten yet only warns.
    PreformatFailureIsWarning,
    /// A source file to format (its name ends with `.rs` in any case).
    SourceFile,
    /// Anything else, handed on to the formatter.
    Forwarded,
}

/// `s` ends with `.rs`.
pub open spec fn ends_with_rs(s: Seq<char>) -> bool {
    s.len() >= 3 && s.subrange(s.len() - 3, s.len() as int) == ".rs"@
}

/// The kind of argument `arg`, whose lower-case form is `lowered`.
pub open spec fn arg_kind(arg: Seq<char>, lowered: Seq<char>) -> ArgKind {
    if arg == "--help"@ || arg == "-h"@ {
        ArgKind::Help
    } else if arg == "--preformat-failure-is-warning"@ {
        ArgKind::PreformatFailureIsWarning
    } else if ends_with_rs(lowered) {
        ArgKind::SourceFile
    } else {
        ArgKind::Forwarded
    }
}

/// The kind of `arg`.
pub open spec fn kind_of(arg: Seq<char>) -> ArgKind {
    arg_kind(arg, lower_of(arg))
}

/// The arguments of `args` that are of kind `kind`, in order.
pub open spec fn of_kind(args: Seq<Seq<char>>, kind: ArgKind) -> Seq<Seq<char>>
    decreases args.len(),
{
    if args.len() == 0 {
        Seq::empty()
    } else if kind_of(args.last()) == kind {
        of_kind(args.drop_last(), kind).push(args.last())
    } else {
        of_kind(args.drop_last(), kind)
    }
}

fn ends_with_rs_exec(s: &str) -> (r: bool)
    ensures
        r == ends_with_rs(s@),
{
    let n = s.unicode_len();
    if n < 3 {
        return false;
    }
    let r = s.get_char(n - 3) == '.' && s.get_char(n - 2) == 'r' && s.get_char(n - 1) == 's';
    proof {
        reveal_strlit(".rs");
        let tail = s@.subrange(n - 3, n as int);
        if r {
            assert(tail =~= ".rs"@);
        } else {
            assert(tail[0] != '.' || tail[1] != 'r' || tail[2] != 's');
        }
    }
    r
}

/// The kind of `arg`, given its lower-case form `lowered`.
pub fn classify_lowered(arg: &str, lowered: &str) -> (r: ArgKind)
    ensures
        r == arg_kind(arg@, lowered@),
{
    if word_eq(arg, "--help") || word_eq(arg, "-h") {
        ArgKind::Help
    } else if word_eq(arg, "--preformat-failure-is-warning") {
        ArgKind::PreformatFailureIsWarning
    } else if ends_with_rs_exec(lowered) {
        ArgKind::SourceFile
    } else {
        ArgKind::Forwarded
    }
}

/// The kind of `arg`.
pub fn classify_arg(arg: &str) -> (r: ArgKind)
    ensures
        r == kind_of(arg@),
{
    let lowered = lowercase(arg);
    classify_lowered(arg, lowered.as_str())
}

/// The arguments sorted by kind.
pub struct Options {
    /// The arguments handed on to the formatter.
    pub args: Vec<String>,
    /// The source files to format.
    pub paths: Vec<String>,
    /// Whether a formatter failure before rewriting only warns.
    pub preformat_failure_is_warning: bool,
}

/// Sorts the command-line arguments (without the program name); `None`
/// when one of them asks for help.
pub fn process_args(args: &Vec<String>) -> (r: Option<Options>)
    ensures
        r is None <==> exists|k: int| 0 <= k < args@.len() && kind_of(#[trigger] args@[k]@) == ArgKind::Help,
        r matches Some(o) ==> markers_view(o.args@) == of_kind(markers_view(args@), ArgKind::Forwarded),
        r matches Some(o) ==> markers_view(o.paths@) == of_kind(markers_view(args@), ArgKind::SourceFile),
        r matches Some(o) ==> (o.preformat_failure_is_warning <==> exists|k: int|
            0 <= k < args@.len() && kind_of(#[trigger] args@[k]@) == ArgKind::PreformatFailureIsWarning),
{
    let ghost all = markers_view(args@);
    let mut forwarded: Vec<String> = Vec::new();
    let mut paths: Vec<String> = Vec::new();
    let mut warn = false;
    let mut k: usize = 0;
    proof {
        assert(all.take(0) =~= Seq::<Seq<char>>::empty());
        assert(markers_view(forwarded@) =~= Seq::<Seq<char>>::empty());
    }
    while k < args.len()
        invariant
            all == markers_view(args@),
            k <= args@.len(),
            forall|j: int| 0 <= j < k ==> kind_of(#[trigger] args@[j]@) != ArgKind::Help,
            markers_view(forwarded@) == of_kind(all.take(k as int), ArgKind::Forwarded),
            markers_view(paths@) == of_kind(all.take(k as int), ArgKind::SourceFile),
            warn <==> exists|j: int|
                0 <= j < k && kind_of(#[trigger] args@[j]@) == ArgKind::PreformatFailureIsWarning,
        decreases args@.len() - k,
    {
        let arg = &args[k];
        let kind = classify_arg(arg.as_str());
        let ghost f0 = forwarded@;
        let ghost p0 = paths@;
        proof {
            assert(all.take(k + 1).drop_last() =~= all.take(k as int));
            assert(all.take(k + 1).last() == arg@);
        }
        match kind {
            ArgKind::Help => {
                return None;
            },
            ArgKind::PreformatFailureIsWarning => {
                warn = true;
            },
            ArgKind::SourceFile => {
                paths.push(arg.clone());
                proof {
                    assert(markers_view(paths@) =~= markers_view(p0).push(arg@));
                }
            },
            ArgKind::Forwarded => {
                forwarded.push(arg.clone());
                proof {
                    assert(markers_view(forwarded@) =~= markers_view(f0).push(arg@));
                }
            },
        }
        k = k + 1;
    }
    proof {
        assert(all.take(k as int) =~= all);
    }
    Some(Options { args: forwarded, paths, preformat_failure_is_warning: warn })
}

} // verus!
