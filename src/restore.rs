//! The reverse rewrite: markers back to `if_chain!` syntax, after formatting.

use crate::transcode::markers_view;
use vstd::prelude::*;
use vstd::string::StringExecFns;

verus! {

#[verifier::external_type_specification]
#[verifier::external_body]
pub struct ExSedError(sedregex::ErrorKind);

/// What running the `s/regex/replacement/flags` commands one after another
/// on a text gives, or `None` if one of them does not parse.
pub uninterp spec fn sed_output(text: Seq<char>, commands: Seq<Seq<char>>) -> Option<Seq<char>>;

/// Relies on `sedregex::find_and_replace`: it runs the commands in turn,
/// each on what the one before produced, and fails when a command does not
/// parse; with no commands it hands the text back.
#[verifier::external_body]
fn find_and_replace(text: &str, commands: &Vec<String>) -> (r: Result<String, sedregex::ErrorKind>)
    ensures
        r is Ok <==> sed_output(text@, markers_view(commands@)) is Some,
        r matches Ok(s) ==> sed_output(text@, markers_view(commands@)) == Some(s@),
        commands@.len() == 0 ==> r is Ok,
        r matches Ok(s) ==> (commands@.len() == 0 ==> s@ == text@),
{
    sedregex::find_and_replace(text, commands).map(|s| s.into_owned())
}

/// Why the reverse rewrite failed.
#[derive(Clone, Copy, Debug, PartialEq, Eq, Structural)]
pub enum RestoreError {
    /// A substitution command did not parse.
    BadCommand,
}

/// The four substitutions that undo the forward rewrite around marker `m`:
/// the function or closure header back to `if_chain!`, each marker block
/// back to `;`, and each marker test back to `then`.
pub open spec fn restore_commands_for(m: Seq<char>) -> Seq<Seq<char>> {
    seq![
        "s/(?m)\\bfn\\s+"@ + m + "\\s*\\(\\)/if_chain!/g"@,
        "s/(?m)\\|\\s*"@ + m + "\\s*\\|/if_chain!/g"@,
        "s/(?m)\\s*\\{\\s*"@ + m + "\\s*;\\s*}/;/g"@,
        "s/(?m)\\bif\\s+"@ + m + "/then/g"@,
    ]
}

/// The substitutions for every marker of `ms`, marker by marker.
pub open spec fn restore_commands(ms: Seq<Seq<char>>) -> Seq<Seq<char>>
    decreases ms.len(),
{
    if ms.len() == 0 {
        Seq::empty()
    } else {
        restore_commands(ms.drop_last()) + restore_commands_for(ms.last())
    }
}

fn command(prefix: &str, marker: &String, suffix: &str) -> (r: String)
    ensures
        r@ == prefix@ + marker@ + suffix@,
{
    let mut s = String::from_str(prefix);
    s.append(marker.as_str());
    s.append(suffix);
    s
}

/// The formatted text with every marker of `markers` turned back into
/// `if_chain!` syntax.
pub fn restore_if_chain(contents: &str, markers: &Vec<String>) -> (r: Result<String, RestoreError>)
    ensures
        match sed_output(contents@, restore_commands(markers_view(markers@))) {
            Some(s) => r matches Ok(q) && q@ == s,
            None => r == Err::<String, RestoreError>(RestoreError::BadCommand),
        },
        markers@.len() == 0 ==> (r matches Ok(q) && q@ == contents@),
{
    let ghost ms = markers_view(markers@);
    let mut commands: Vec<String> = Vec::new();
    let mut k: usize = 0;
    proof {
        assert(markers_view(commands@) =~= restore_commands(ms.take(0)));
    }
    while k < markers.len()
        invariant
            ms == markers_view(markers@),
            k <= ms.len(),
            markers_view(commands@) == restore_commands(ms.take(k as int)),
        decreases ms.len() - k,
    {
        let ghost before = markers_view(commands@);
        let m = &markers[k];
        commands.push(command("s/(?m)\\bfn\\s+", m, "\\s*\\(\\)/if_chain!/g"));
        commands.push(command("s/(?m)\\|\\s*", m, "\\s*\\|/if_chain!/g"));
        commands.push(command("s/(?m)\\s*\\{\\s*", m, "\\s*;\\s*}/;/g"));
        commands.push(command("s/(?m)\\bif\\s+", m, "/then/g"));
        proof {
            assert(ms.take(k + 1).drop_last() =~= ms.take(k as int));
            assert(ms.take(k + 1).last() == m@);
            assert(markers_view(commands@) =~= before + restore_commands_for(m@));
        }
        k = k + 1;
    }
    proof {
        assert(ms.take(k as int) =~= ms);
    }
    match find_and_replace(contents, &commands) {
        Ok(s) => Ok(s),
        Err(_) => Err(RestoreError::BadCommand),
    }
}

} // verus!
