//! One run: from what the pull request holds to its new title.

use vstd::prelude::*;
use crate::error::{Error, Field};
use crate::issues::{extracted, pr_issues_from_body};
use crate::title::{compose_title, composed};

verus! {

/// What a run makes of a pull request with this title and this
/// description. The description is asked for first and read first: a
/// fault in it is told before a missing title.
pub open spec fn retitled(title: Option<Seq<char>>, body: Option<Seq<char>>) -> Result<
    Seq<char>,
    Error,
> {
    match body {
        None => Err(Error::MissingPrecondition(Field::Body)),
        Some(b) => match extracted(b) {
            Err(e) => Err(e),
            Ok(issues) => match title {
                None => Err(Error::MissingPrecondition(Field::Title)),
                Some(t) => Ok(composed(t, issues)),
            },
        },
    }
}

/// The characters of a string that may be missing.
pub open spec fn text_of(s: Option<&str>) -> Option<Seq<char>> {
    match s {
        Some(t) => Some(t@),
        None => None,
    }
}

/// The new title of a pull request, from its title and its description
/// as they came. No title is made where either is missing or the
/// description does not yield its issues.
pub fn retitle(title: Option<&str>, body: Option<&str>) -> (r: Result<String, Error>)
    ensures
        match r {
            Ok(t) => retitled(text_of(title), text_of(body)) == Ok::<Seq<char>, Error>(t@),
            Err(e) => retitled(text_of(title), text_of(body)) == Err::<Seq<char>, Error>(e),
        },
{
    let body = match body {
        Some(b) => b,
        None => {
            return Err(Error::MissingPrecondition(Field::Body));
        },
    };
    let issues = match pr_issues_from_body(body) {
        Ok(v) => v,
        Err(e) => {
            return Err(e);
        },
    };
    let title = match title {
        Some(t) => t,
        None => {
            return Err(Error::MissingPrecondition(Field::Title));
        },
    };
    Ok(compose_title(title, issues.as_slice()))
}

} // verus!
