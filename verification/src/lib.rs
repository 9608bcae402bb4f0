//! Mirrors the issues and labels of a remote issue tracker in a relational store,
//! and projects the stored issues into Atom and RSS feeds, one for each label.
//!
//! The library does no input or output. A synchronisation is a state machine: it
//! says which page to ask the remote for, and takes the answer. The store is a
//! value that is read from a database before a command and written back after it.
//! A feed is returned as the text of its document.
//!
//! What is stated of each function is proved; what is taken on trust of other
//! crates stands in [`documents`] and [`time`], and of the standard library in
//! [`text`].

use vstd::prelude::*;

pub mod atom;
pub mod documents;
pub mod error;
pub mod escape;
pub mod generate;
pub mod query;
pub mod relations;
pub mod seqs;
pub mod store;
pub mod text;
pub mod time;

use crate::error::Error;
use crate::text::{chars_of, trimmed, trimmed_string_of};

verus! {

/// What the `generate` command was asked to do.
pub struct GenerateOpts {
    /// Repository to generate feeds for, as `owner/name`.
    pub repo: String,
    /// Root directory of the output.
    pub out_path: String,
    /// Labels for which to generate feeds; none selects every label of the repository.
    pub labels: Vec<String>,
    /// Exclude open issues from the feeds.
    pub without_open: bool,
    /// Exclude closed issues from the feeds.
    pub without_closed: bool,
    /// Generate an RSS feed.
    pub rss: bool,
    /// Generate an Atom feed.
    pub atom: bool,
}

/// The least index at or after `from` at which `s` holds a slash; the length of `s`
/// where there is none.
pub open spec fn slash_index(s: Seq<char>, from: int) -> int
    decreases s.len() - from,
{
    if from < 0 || from >= s.len() {
        s.len() as int
    } else if s[from] == '/' {
        from
    } else {
        slash_index(s, from + 1)
    }
}

/// Owner and name in `owner/name`: the text before the first slash and the text
/// between the first slash and the second (or the end), each without surrounding
/// white space. `None` where `s` holds no slash.
pub open spec fn repo_parts(s: Seq<char>) -> Option<(Seq<char>, Seq<char>)> {
    let first = slash_index(s, 0);
    if first >= s.len() {
        None
    } else {
        let second = slash_index(s, first + 1);
        Some((trimmed(s.subrange(0, first)), trimmed(s.subrange(first + 1, second))))
    }
}

fn find_slash(chars: &Vec<char>, from: usize) -> (at: usize)
    requires
        from <= chars.len(),
    ensures
        at == slash_index(chars@, from as int),
        from <= at <= chars.len(),
{
    let mut at: usize = from;
    while at < chars.len() && chars[at] != '/'
        invariant
            from <= at <= chars.len(),
            slash_index(chars@, from as int) == slash_index(chars@, at as int),
        decreases chars.len() - at,
    {
        at = at + 1;
    }
    at
}

/// What is said of a text that does not name a repository as `owner/name`.
pub open spec fn invalid_repo_text(combined: Seq<char>) -> Seq<char> {
    "invalid repo format, expected owner/name: '"@ + combined + "'"@
}

/// What is said of `combined` where it does not name a repository as `owner/name`:
/// the error, and the text as it was given, between quotes.
pub fn invalid_repo_message(combined: &str) -> (text: String)
    ensures
        text@ == invalid_repo_text(combined@),
{
    let mut text = "invalid repo format, expected owner/name: '".to_owned();
    text.append(combined);
    text.append("'");
    text
}

/// Splits `owner/name` into its two parts.
pub fn parse_repo(combined: &str) -> (parsed: Result<(String, String), Error>)
    ensures
        match repo_parts(combined@) {
            Some((owner, name)) => parsed is Ok && parsed->Ok_0.0@ == owner && parsed->Ok_0.1@
                == name,
            None => parsed == Err::<(String, String), Error>(Error::InvalidRepoFormat),
        },
{
    let chars = chars_of(combined);
    let first = find_slash(&chars, 0);
    if first >= chars.len() {
        return Err(Error::InvalidRepoFormat);
    }
    let second = find_slash(&chars, first + 1);
    let owner = trimmed_string_of(&chars, 0, first);
    let name = trimmed_string_of(&chars, first + 1, second);
    Ok((owner, name))
}

} // verus!
