//! The commands of the tool: what each one computes and prints, given the
//! catalog and its arguments. Reading and writing files, the network and the
//! terminal are left to the caller.
use vstd::prelude::*;

use crate::text::{
    all_digits, chars_of, decimal, extend_str, lemma_decimal_value, parse_unsigned,
    parse_unsigned_str, string_of, unsigned_digits,
};

pub mod add;
pub mod catalog_for_agent;
pub mod info;
pub mod list;
pub mod search;
pub mod setup;
pub mod update;
pub mod version;

verus! {

/// A filesystem path, carried through unchanged to the caller that writes files.
#[verifier::external_type_specification]
#[verifier::external_body]
pub struct ExPathBuf(std::path::PathBuf);

/// The subcommands and their arguments.
#[derive(Debug)]
pub enum Commands {
    List { category: Option<String>, limit: Option<usize>, offset: usize },
    Search { query: String },
    Info { skill_id: String },
    Add { skill_ids: Vec<String>, path: std::path::PathBuf },
    Setup { skill_ids: Vec<String>, path: std::path::PathBuf },
    CatalogForAgent { limit: usize, offset: usize },
    Update,
    Version,
}

/// What a command prints: lines for standard output and for standard error,
/// then the error it fails with, if any.
#[derive(Debug)]
pub struct CommandOutput {
    pub stdout: Vec<String>,
    pub stderr: Vec<String>,
    pub error: Option<String>,
}

/// One step of installing skills into a directory.
#[derive(Debug)]
pub enum Step {
    /// Write `content` to `<dir>/<id>/SKILL.md`.
    Write { id: String, name: String, content: String },
    /// Report this error.
    Fail(String),
}

/// The error a step ends with, given what performing it gave: a failing step
/// reports its own message, a write reports the error of the write, if any.
pub open spec fn step_failure(step: Step, outcome: Option<String>) -> Option<Seq<char>> {
    match step {
        Step::Fail(m) => Some(m@),
        Step::Write { .. } => match outcome {
            Some(e) => Some(e@),
            None => None,
        },
    }
}

/// The contents of a sequence of strings.
pub open spec fn lines(v: Seq<String>) -> Seq<Seq<char>> {
    v.map_values(|s: String| s@)
}

/// The strings joined, with `sep` between each two.
pub open spec fn joined(parts: Seq<Seq<char>>, sep: Seq<char>) -> Seq<char>
    decreases parts.len(),
{
    if parts.len() == 0 {
        Seq::empty()
    } else if parts.len() == 1 {
        parts[0]
    } else {
        joined(parts.drop_last(), sep) + sep + parts.last()
    }
}

/// Joins the strings with a newline between each two.
pub fn join_lines(parts: &Vec<String>) -> (res: String)
    ensures
        res@ == joined(lines(parts@), seq!['\n']),
{
    let mut out: Vec<char> = Vec::new();
    let mut i: usize = 0;
    while i < parts.len()
        invariant
            i <= parts.len(),
            out@ == joined(lines(parts@).take(i as int), seq!['\n']),
        decreases parts.len() - i,
    {
        let ghost before = out@;
        let ghost t = lines(parts@).take(i + 1);
        assert(t.drop_last() =~= lines(parts@).take(i as int));
        assert(t.last() == parts@[i as int]@);
        if i > 0 {
            out.push('\n');
        }
        extend_str(&mut out, parts[i].as_str());
        if i == 0 {
            assert(out@ =~= t[0]);
        } else {
            assert(out@ =~= before + seq!['\n'] + t.last());
        }
        i += 1;
    }
    assert(lines(parts@).take(parts.len() as int) =~= lines(parts@));
    string_of(&out)
}

/// The outcome of a batch: success when nothing failed, else all the error
/// messages, one per line.
pub fn batch_result(errors: &Vec<String>) -> (res: Result<(), String>)
    ensures
        errors.len() == 0 ==> res is Ok,
        errors.len() > 0 ==> (res matches Err(e) && e@ == joined(lines(errors@), seq!['\n'])),
{
    if errors.len() == 0 {
        Ok(())
    } else {
        Err(join_lines(errors))
    }
}

/// The page of `s` that starts at `offset` and holds at most `limit` items.
pub open spec fn page_of<T>(s: Seq<T>, offset: nat, limit: nat) -> Seq<T> {
    if offset >= s.len() {
        Seq::empty()
    } else if offset + limit >= s.len() {
        s.skip(offset as int)
    } else {
        s.subrange(offset as int, (offset + limit) as int)
    }
}

/// Consecutive pages cover the items without gaps or repeats: the page at
/// `offset` of size `a`, followed by the page right after it of size `b`, is
/// the page at `offset` of size `a + b`.
pub proof fn lemma_pages_concatenate<T>(s: Seq<T>, offset: nat, a: nat, b: nat)
    ensures
        page_of(s, offset, a) + page_of(s, offset + a, b) == page_of(s, offset, a + b),
{
    assert(page_of(s, offset, a) + page_of(s, offset + a, b) =~= page_of(s, offset, a + b));
}

/// Walking through the items page by page from the start yields every item
/// once, in order: the first `n` pages of size `limit` are the first
/// `n * limit` items.
pub proof fn lemma_pages_cover<T>(s: Seq<T>, limit: nat, n: nat)
    ensures
        pages(s, limit, n) == page_of(s, 0, n * limit),
    decreases n,
{
    if n > 0 {
        lemma_pages_cover(s, limit, (n - 1) as nat);
        assert(((n - 1) as nat) * limit + limit == n * limit) by (nonlinear_arith)
            requires
                n > 0,
        ;
        lemma_pages_concatenate(s, 0, ((n - 1) as nat) * limit, limit);
    } else {
        assert(page_of(s, 0, 0) =~= Seq::<T>::empty());
    }
}

/// The first `n` pages of size `limit`, one after the other.
pub open spec fn pages<T>(s: Seq<T>, limit: nat, n: nat) -> Seq<T>
    decreases n,
{
    if n == 0 {
        Seq::empty()
    } else {
        pages(s, limit, (n - 1) as nat) + page_of(s, ((n - 1) as nat) * limit, limit)
    }
}

/// What parsing a `--limit` value gives: a whole number of at least 1, or an
/// error message.
pub open spec fn limit_value(value: Seq<char>) -> Result<nat, Seq<char>> {
    match parse_unsigned(value, usize::MAX as nat) {
        None => Err("invalid value '"@ + value + "' for '--limit'"@),
        Some(n) => if n == 0 {
            Err("--limit must be at least 1"@)
        } else {
            Ok(n)
        },
    }
}

/// The numbers that `list` prints are read back by `parse_limit`: for every
/// limit it accepts, its decimal representation parses to itself.
pub proof fn lemma_limit_round_trip(n: nat)
    requires
        1 <= n <= usize::MAX,
    ensures
        limit_value(decimal(n)) == Ok::<nat, Seq<char>>(n),
{
    lemma_decimal_value(n);
    let d = decimal(n);
    assert(d[0] != '+') by {
        assert(all_digits(d));
        assert(crate::text::is_digit(d[0]));
    }
    assert(unsigned_digits(d) == d);
}

/// Parses the value of `--limit`.
pub fn parse_limit(value: &str) -> (res: Result<usize, String>)
    ensures
        match res {
            Ok(n) => limit_value(value@) == Ok::<nat, Seq<char>>(n as nat),
            Err(e) => limit_value(value@) == Err::<nat, Seq<char>>(e@),
        },
{
    match parse_unsigned_str(value, usize::MAX as u64) {
        None => {
            let mut msg: Vec<char> = Vec::new();
            extend_str(&mut msg, "invalid value '");
            extend_str(&mut msg, value);
            extend_str(&mut msg, "' for '--limit'");
            Err(string_of(&msg))
        },
        Some(n) => {
            if n == 0 {
                let msg = chars_of("--limit must be at least 1");
                Err(string_of(&msg))
            } else {
                Ok(n as usize)
            }
        },
    }
}

} // verus!
