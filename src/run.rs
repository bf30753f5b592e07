//! The decisions of a whole run: which page to check, and how the run ends.
use crate::check::CheckResult;
use vstd::prelude::*;

verus! {

/// Why a run stops before it can report.
pub enum RunError {
    /// No URL was given.
    MissingUrl,
    /// The page itself could not be fetched, for the reason given.
    Fetch(String),
}

/// The URL to check: the first argument, which must be given.
pub fn target_url(arg: Option<String>) -> (r: Result<String, RunError>)
    ensures
        arg matches Some(u) ==> r == Ok::<String, RunError>(u),
        arg is None ==> r matches Err(RunError::MissingUrl),
{
    match arg {
        Some(u) => Ok(u),
        None => Err(RunError::MissingUrl),
    }
}

impl RunError {
    /// The one line that reports this error.
    pub fn message(&self) -> (r: String)
        ensures
            self matches RunError::Fetch(reason) ==> r@ == reason@,
            self is MissingUrl ==> r@ == "missing argument 1 (the URL to check for dead links)"@,
    {
        match self {
            RunError::MissingUrl => "missing argument 1 (the URL to check for dead links)".to_owned(),
            RunError::Fetch(reason) => reason.clone(),
        }
    }
}

/// The exit status of a run whose page was fetched: 0 if no link is broken, else 1.
pub fn exit_code(broken: &Vec<CheckResult>) -> (r: i32)
    ensures
        r == (if broken@.len() == 0 { 0i32 } else { 1i32 }),
{
    if broken.len() == 0 {
        0
    } else {
        1
    }
}

} // verus!
