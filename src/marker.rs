//! Fresh identifiers that stand in for a construct while a file is formatted.

use crate::text::{contains, has_substring, push_char};
use vstd::prelude::*;
use vstd::string::StringExecFns;

verus! {

/// The decimal digit character for `d < 10`.
pub open spec fn digit(d: nat) -> char {
    ((48 + d) as u8) as char
}

/// Decimal notation of `n`, without leading zeros.
pub open spec fn decimal(n: nat) -> Seq<char>
    decreases n,
{
    if n < 10 {
        seq![digit(n)]
    } else {
        decimal(n / 10).push(digit(n % 10))
    }
}

/// The `i`-th candidate marker: `x0`, `x1`, ...
pub open spec fn candidate(i: nat) -> Seq<char> {
    seq!['x'] + decimal(i)
}

/// `m` may serve as a marker in `text` beside the markers `taken`: it does
/// not occur in the text, and no two markers occur in one another.
pub open spec fn marker_fits(text: Seq<char>, taken: Seq<Seq<char>>, m: Seq<char>) -> bool {
    &&& !has_substring(text, m)
    &&& forall|k: int|
        0 <= k < taken.len() ==> !has_substring(#[trigger] taken[k], m) && !has_substring(
            m,
            taken[k],
        )
}

/// Candidate `i` fits, and is one that the search can reach.
pub open spec fn candidate_fits(text: Seq<char>, taken: Seq<Seq<char>>, i: int) -> bool {
    0 <= i <= u64::MAX && marker_fits(text, taken, candidate(i as nat))
}

/// `i` is the first candidate that fits.
pub open spec fn first_fit(text: Seq<char>, taken: Seq<Seq<char>>, i: int) -> bool {
    candidate_fits(text, taken, i) && forall|j: int| 0 <= j < i ==> !candidate_fits(text, taken, j)
}

/// The marker chosen for `text` beside `taken`: the first candidate that
/// fits, if any does.
pub open spec fn fresh_marker_of(text: Seq<char>, taken: Seq<Seq<char>>) -> Option<Seq<char>> {
    if exists|i: int| first_fit(text, taken, i) {
        Some(candidate((choose|i: int| first_fit(text, taken, i)) as nat))
    } else {
        None
    }
}

/// A chosen marker fits: it occurs neither in the text nor in any marker
/// before it, and contains none of them.
pub proof fn lemma_fresh_marker_fits(text: Seq<char>, taken: Seq<Seq<char>>)
    requires
        fresh_marker_of(text, taken) is Some,
    ensures
        marker_fits(text, taken, fresh_marker_of(text, taken)->Some_0),
{
    let i = choose|i: int| first_fit(text, taken, i);
    assert(first_fit(text, taken, i));
}

/// Every text occurs in itself.
pub proof fn lemma_has_substring_self(s: Seq<char>)
    ensures
        has_substring(s, s),
{
    assert(s.subrange(0, 0 + s.len() as int) =~= s);
}

fn push_digit(out: &mut String, d: u64)
    requires
        d < 10,
    ensures
        final(out)@ == old(out)@.push(digit(d as nat)),
{
    let b: u8 = 48 + d as u8;
    push_char(out, b as char);
}

/// Appends the decimal notation of `n`.
fn push_decimal(out: &mut String, n: u64)
    ensures
        final(out)@ == old(out)@ + decimal(n as nat),
    decreases n,
{
    if n >= 10 {
        push_decimal(out, n / 10);
    }
    push_digit(out, n % 10);
    proof {
        if n < 10 {
            assert(old(out)@ + decimal(n as nat) =~= old(out)@.push(digit(n as nat)));
        } else {
            assert((old(out)@ + decimal((n / 10) as nat)).push(digit((n % 10) as nat)) =~= old(
                out,
            )@ + decimal(n as nat));
        }
    }
}

/// The candidate marker `x<i>`.
pub fn candidate_name(i: u64) -> (r: String)
    ensures
        r@ == candidate(i as nat),
{
    let mut r = String::new();
    push_char(&mut r, 'x');
    push_decimal(&mut r, i);
    proof {
        assert(seq!['x'] + decimal(i as nat) =~= Seq::<char>::empty().push('x') + decimal(
            i as nat,
        ));
    }
    r
}

/// Whether `m` fits beside the markers `taken` in `text`.
fn fits(text: &str, taken: &Vec<String>, m: &String) -> (r: bool)
    ensures
        r == marker_fits(text@, taken@.map_values(|s: String| s@), m@),
{
    let ghost seen = taken@.map_values(|s: String| s@);
    if contains(text, m.as_str()) {
        return false;
    }
    let mut k: usize = 0;
    while k < taken.len()
        invariant
            seen == taken@.map_values(|s: String| s@),
            k <= taken@.len(),
            !has_substring(text@, m@),
            forall|j: int|
                0 <= j < k ==> !has_substring(#[trigger] seen[j], m@) && !has_substring(
                    m@,
                    seen[j],
                ),
        decreases taken@.len() - k,
    {
        if contains(taken[k].as_str(), m.as_str()) || contains(m.as_str(), taken[k].as_str()) {
            proof {
                assert(seen[k as int] == taken@[k as int]@);
            }
            return false;
        }
        k = k + 1;
    }
    true
}

/// The first candidate marker `x0`, `x1`, ... that does not occur in
/// `contents` and neither occurs in nor contains any marker of `taken`;
/// `None` if no candidate up to `x18446744073709551615` does.
pub fn fresh_marker(contents: &str, taken: &Vec<String>) -> (r: Option<String>)
    ensures
        r matches Some(m) ==> fresh_marker_of(contents@, taken@.map_values(|s: String| s@))
            == Some(m@),
        r is None ==> fresh_marker_of(contents@, taken@.map_values(|s: String| s@)) is None,
        r matches Some(m) ==> marker_fits(contents@, taken@.map_values(|s: String| s@), m@),
{
    let ghost seen = taken@.map_values(|s: String| s@);
    let mut i: u64 = 0;
    loop
        invariant
            seen == taken@.map_values(|s: String| s@),
            forall|j: int| 0 <= j < i ==> !candidate_fits(contents@, seen, j),
        decreases u64::MAX - i,
    {
        let x = candidate_name(i);
        if fits(contents, taken, &x) {
            proof {
                assert(first_fit(contents@, seen, i as int));
                let c = choose|c: int| first_fit(contents@, seen, c);
                if c < i {
                    assert(!candidate_fits(contents@, seen, c));
                }
                if i < c {
                    assert(!candidate_fits(contents@, seen, i as int));
                }
                lemma_fresh_marker_fits(contents@, seen);
            }
            return Some(x);
        }
        if i == u64::MAX {
            proof {
                assert forall|c: int| !first_fit(contents@, seen, c) by {
                    if 0 <= c <= u64::MAX && c != i {
                        assert(!candidate_fits(contents@, seen, c));
                    }
                }
            }
            return None;
        }
        i = i + 1;
    }
}

/// The marker that `if_chain!` invocations in `contents` are rewritten
/// around: the first candidate that does not occur in `contents`.
pub fn unused_ident(contents: &str) -> (r: Option<String>)
    ensures
        r matches Some(m) ==> fresh_marker_of(contents@, Seq::empty()) == Some(m@),
        r matches Some(m) ==> !has_substring(contents@, m@),
        r is None ==> fresh_marker_of(contents@, Seq::empty()) is None,
{
    let taken: Vec<String> = Vec::new();
    proof {
        assert(taken@.map_values(|s: String| s@) =~= Seq::<Seq<char>>::empty());
    }
    let r = fresh_marker(contents, &taken);
    proof {
        if r is Some {
            let seen = Seq::<Seq<char>>::empty();
            let c = choose|c: int| first_fit(contents@, seen, c);
            assert(first_fit(contents@, seen, c));
        }
    }
    r
}

} // verus!
