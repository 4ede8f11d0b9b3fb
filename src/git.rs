//! What the library reads from git's output: the push remote, a resolved
//! revision, the current branch, and the fields asked of `for-each-ref`.

use vstd::prelude::*;
use vstd::string::*;

use crate::text::{same_text, split, split_exec, split_once, split_once_exec, trim, trim_exec};

verus! {

/// Readers of the output of the git commands that the opener asks.
pub struct Git {}

/// The push remote named on one line of `git remote -v`
/// (`<name>\t<url> (push)`).
pub open spec fn push_remote_of_line(line: Seq<char>) -> Option<Seq<char>> {
    match split_once(trim(line), '\t') {
        None => None,
        Some((_, rest)) => match split_once(trim(rest), ' ') {
            None => None,
            Some((remote, ty)) => if ty == "(push)"@ {
                Some(remote)
            } else {
                None
            },
        },
    }
}

/// The push remote of the first of `lines[i..]` that names one.
pub open spec fn first_push_remote(lines: Seq<Seq<char>>, i: int) -> Option<Seq<char>>
    decreases lines.len() - i,
{
    if i < 0 || i >= lines.len() {
        None
    } else {
        match push_remote_of_line(lines[i]) {
            Some(r) => Some(r),
            None => first_push_remote(lines, i + 1),
        }
    }
}

/// The current branch reported by `git branch --show-current`: none when the
/// output is blank (a detached head).
pub open spec fn branch_of(output: Seq<char>) -> Option<Seq<char>> {
    if trim(output).len() == 0 {
        None
    } else {
        Some(trim(output))
    }
}

impl Git {
    /// The first push remote listed in the output of `git remote -v`.
    pub fn push_remote(output: &str) -> (r: Option<String>)
        ensures
            r.deep_view() == first_push_remote(split(trim(output@), '\n'), 0),
    {
        let trimmed = trim_exec(output);
        let lines = split_exec(trimmed.as_str(), '\n');
        let ghost ls = lines.deep_view();
        let mut i: usize = 0;
        while i < lines.len()
            invariant
                ls == lines.deep_view(),
                ls == split(trim(output@), '\n'),
                i <= lines.len(),
                first_push_remote(ls, 0) == first_push_remote(ls, i as int),
            decreases lines.len() - i,
        {
            assert(ls[i as int] == lines@[i as int]@);
            let line = trim_exec(lines[i].as_str());
            if let Some((_, rest)) = split_once_exec(line.as_str(), '\t') {
                let rest = trim_exec(rest.as_str());
                if let Some((remote, ty)) = split_once_exec(rest.as_str(), ' ') {
                    if same_text(ty.as_str(), "(push)") {
                        return Some(remote);
                    }
                }
            }
            i += 1;
        }
        None
    }

    /// The object id printed by `git rev-parse`.
    pub fn revision(output: &str) -> (r: String)
        ensures
            r@ == trim(output@),
    {
        trim_exec(output)
    }

    /// The branch printed by `git branch --show-current`, if any.
    pub fn branch(output: &str) -> (r: Option<String>)
        ensures
            r.deep_view() == branch_of(output@),
    {
        let b = trim_exec(output);
        if b.as_str().unicode_len() == 0 {
            None
        } else {
            Some(b)
        }
    }
}

/// A field of a ref that `git for-each-ref` can print.
#[derive(Clone, Copy, Debug, PartialEq, Eq)]
pub enum GitRefField {
    AuthorName,
    AuthorDateISO,
    RefName,
    ObjectName,
    Subject,
}

impl GitRefField {
    /// The format atom of the field.
    pub open spec fn atom(self) -> Seq<char> {
        match self {
            GitRefField::AuthorName => "%(authorname)"@,
            GitRefField::AuthorDateISO => "%(authordate:iso8601)"@,
            GitRefField::RefName => "%(refname)"@,
            GitRefField::ObjectName => "%(objectname)"@,
            GitRefField::Subject => "%(contents:subject)"@,
        }
    }

    /// The format atom of the field, as `for-each-ref --format` reads it.
    pub fn as_str(self) -> (r: &'static str)
        ensures
            r@ == self.atom(),
    {
        match self {
            GitRefField::AuthorName => "%(authorname)",
            GitRefField::AuthorDateISO => "%(authordate:iso8601)",
            GitRefField::RefName => "%(refname)",
            GitRefField::ObjectName => "%(objectname)",
            GitRefField::Subject => "%(contents:subject)",
        }
    }
}

/// The atoms of the first `n` fields, each followed by the separator `%00`
/// but the last.
pub open spec fn format_upto(fields: Seq<GitRefField>, n: nat) -> Seq<char>
    decreases n,
{
    if n == 0 || n > fields.len() {
        Seq::empty()
    } else if n == 1 {
        fields[0].atom()
    } else {
        format_upto(fields, (n - 1) as nat) + "%00"@ + fields[n - 1].atom()
    }
}

/// The `--format` argument of `git for-each-ref` that prints the fields
/// separated by NUL characters.
pub fn ref_format(fields: &Vec<GitRefField>) -> (r: String)
    ensures
        r@ == format_upto(fields@, fields@.len()),
{
    let mut r = String::new();
    let mut i: usize = 0;
    while i < fields.len()
        invariant
            i <= fields.len(),
            r@ == format_upto(fields@, i as nat),
        decreases fields.len() - i,
    {
        if i > 0 {
            r.append("%00");
        }
        r.append(fields[i].as_str());
        i += 1;
    }
    r
}

} // verus!
