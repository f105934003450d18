//! What to run against: the choice of the Postgres version and of the
//! database for a session, and the arguments of the client.
use vstd::prelude::*;
use owo_colors::OwoColorize;
use crate::text::{decimal, decimal_text};

verus! {

/// Which Postgres version a session runs against.
#[derive(Debug, Clone, PartialEq, Eq)]
pub enum VersionChoice {
    /// The version that was named on the command line.
    Given(String),
    /// The default version of the package.
    Default,
}

/// What a session runs against.
#[derive(Debug, Clone, PartialEq, Eq)]
pub struct RunPlan {
    pub version: VersionChoice,
    /// The database to connect to; without one, the database is called as
    /// the extension is.
    pub dbname: Option<String>,
}

/// A command line that no session can be run from.
#[derive(Debug, Clone, PartialEq, Eq)]
pub enum RunError {
    /// A database was named, and the version named before it is not known.
    UnknownVersion(String),
}

/// A text, if there is one, as contracts see it.
pub open spec fn text_of(s: Option<String>) -> Option<Seq<char>> {
    match s {
        Some(s) => Some(s@),
        None => None,
    }
}

/// Decides what to run against.
///
/// The first word of the command line, `pg_version`, names a version, and
/// `known` says whether that version is one of the known ones. If it is
/// not, the word is taken for the name of the database, as long as no other
/// database is named, and the default version is run.
pub fn plan_run(pg_version: Option<String>, dbname: Option<String>, known: bool) -> (r: Result<
    RunPlan,
    RunError,
>)
    ensures
        match pg_version {
            None => r matches Ok(plan) && plan.version is Default && text_of(plan.dbname)
                == text_of(dbname),
            Some(version) => if known {
                r matches Ok(plan) && plan.version matches VersionChoice::Given(v) && v@
                    == version@ && text_of(plan.dbname) == text_of(dbname)
            } else if dbname is Some {
                r matches Err(RunError::UnknownVersion(v)) && v@ == version@
            } else {
                r matches Ok(plan) && plan.version is Default && text_of(plan.dbname) == Some(
                    version@,
                )
            },
        },
{
    match pg_version {
        None => Ok(RunPlan { version: VersionChoice::Default, dbname }),
        Some(version) => {
            if known {
                Ok(RunPlan { version: VersionChoice::Given(version), dbname })
            } else if dbname.is_some() {
                Err(RunError::UnknownVersion(version))
            } else {
                Ok(RunPlan { version: VersionChoice::Default, dbname: Some(version) })
            }
        },
    }
}

/// The arguments of the client for a session: the host, the port and the
/// database.
pub open spec fn client_arguments(host: Seq<char>, port: u16, dbname: Seq<char>) -> Seq<Seq<char>> {
    seq!["-h"@, host, "-p"@, decimal_text(port as nat), dbname]
}

/// The arguments with which the client is started.
pub fn psql_arguments(host: &str, port: u16, dbname: &str) -> (r: Vec<String>)
    ensures
        r@.map_values(|s: String| s@) == client_arguments(host@, port, dbname@),
{
    let mut r: Vec<String> = Vec::new();
    r.push(String::from_str("-h"));
    r.push(String::from_str(host));
    r.push(String::from_str("-p"));
    r.push(decimal(port as u32));
    r.push(String::from_str(dbname));
    assert(r@.map_values(|s: String| s@) =~= client_arguments(host@, port, dbname@));
    r
}


/// A text in bold cyan on a terminal: between the sequences that switch
/// cyan and bold on, and those that switch bold and the colour off.
pub open spec fn bold_cyan(text: Seq<char>) -> Seq<char> {
    "\x1b[36m\x1b[1m"@ + text + "\x1b[0m\x1b[39m"@
}

/// Formats `text` through `OwoColorize::bold` and then `OwoColorize::cyan`
/// of `owo_colors`. The contract is not proved: it states what the two
/// wrappers write around the text, as their `Display` impls show it.
#[verifier::external_body]
fn highlight(text: &str) -> (r: String)
    ensures
        r@ == bold_cyan(text@),
{
    format!("{}", text.bold().cyan())
}

/// The line that says that a database is there already and is used again.
pub fn reusing_message(dbname: &str) -> (r: String)
    ensures
        r@ == bold_cyan("    Re-using"@) + " existing database "@ + dbname@,
{
    let mut r = highlight("    Re-using");
    r.append(" existing database ");
    r.append(dbname);
    r
}

} // verus!
