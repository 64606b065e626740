//! Pull-request titles that list the issues a pull request closes.
//!
//! A run reads the number of the pull request from the reference that the
//! CI job was started with, reads the issues that the description of the
//! pull request says it closes, and puts them behind the title in
//! brackets, the least first, in place of what an earlier run put there.

pub mod chars;
pub mod error;
pub mod issues;
pub mod listing;
pub mod number;
pub mod reference;
pub mod rerun;
pub mod run;
pub mod title;

pub use crate::error::{Error, Field};
pub use crate::issues::pr_issues_from_body;
pub use crate::reference::pr_num_from_gh_ref;
pub use crate::run::retitle;
pub use crate::title::compose_title;
