//! Reads a project's agent configuration (instructions file, rules, skills
//! and MCP servers) and renders the configuration files of other AI coding
//! tools from it.
pub mod discover;
pub mod generate;
pub mod gitattributes;
pub mod ir;
pub mod json;
pub mod output;
pub mod parse;
pub mod path;
pub mod text;

use vstd::prelude::*;

verus! {

/// What a run does with the files it renders.
#[derive(Debug, Clone, Copy, PartialEq, Eq, Structural)]
pub enum Mode {
    /// Compare them with the files on disk.
    Check,
    /// Write them; with `overwrite`, also over files that it did not write.
    Fix { overwrite: bool },
    /// Report the differences as Markdown.
    Pr,
}

/// A tool whose configuration is rendered.
#[derive(Debug, Clone, Copy, PartialEq, Eq, Structural)]
pub enum Target {
    Cursor,
    Copilot,
}

/// Every target, Cursor first.
pub fn all_targets() -> (res: Vec<Target>)
    ensures
        res@ == seq![Target::Cursor, Target::Copilot],
{
    let mut v: Vec<Target> = Vec::new();
    v.push(Target::Cursor);
    v.push(Target::Copilot);
    assert(v@ =~= seq![Target::Cursor, Target::Copilot]);
    v
}

/// The target that a name on the command line stands for.
pub open spec fn target_named(name: Seq<char>) -> Option<Target> {
    if name == "cursor"@ {
        Some(Target::Cursor)
    } else if name == "copilot"@ {
        Some(Target::Copilot)
    } else {
        None
    }
}

/// The error for a name that stands for no target.
pub open spec fn unknown_target_message(name: Seq<char>) -> Seq<char> {
    "unknown target: "@ + name
}

/// The targets of the first `n` names, or the error for the first name that
/// stands for none.
pub open spec fn targets_upto(names: Seq<Seq<char>>, n: int) -> Result<Seq<Target>, Seq<char>>
    decreases n,
{
    if n <= 0 || n > names.len() {
        Ok(Seq::empty())
    } else {
        match targets_upto(names, n - 1) {
            Err(e) => Err(e),
            Ok(ts) => match target_named(names[n - 1]) {
                Some(t) => Ok(ts.push(t)),
                None => Err(unknown_target_message(names[n - 1])),
            },
        }
    }
}

/// The targets that `names` stand for, in order; the error names the first
/// name that stands for none.
pub open spec fn targets_of(names: Seq<Seq<char>>) -> Result<Seq<Target>, Seq<char>> {
    targets_upto(names, names.len() as int)
}

/// Once a name stands for no target, the error stays.
proof fn lemma_targets_err_stays(names: Seq<Seq<char>>, k: int, n: int)
    requires
        0 <= k <= n <= names.len(),
        targets_upto(names, k) is Err,
    ensures
        targets_upto(names, n) == targets_upto(names, k),
    decreases n - k,
{
    if n > k {
        lemma_targets_err_stays(names, k, n - 1);
    }
}

/// Reads target names (`cursor`, `copilot`).
pub fn parse_targets(names: &[String]) -> (res: Result<Vec<Target>, String>)
    ensures
        match res {
            Ok(ts) => targets_of(names.deep_view()) == Ok::<Seq<Target>, Seq<char>>(ts@),
            Err(e) => targets_of(names.deep_view()) == Err::<Seq<Target>, Seq<char>>(e@),
        },
{
    let mut ts: Vec<Target> = Vec::new();
    let mut i: usize = 0;
    while i < names.len()
        invariant
            i <= names.len(),
            targets_upto(names.deep_view(), i as int) == Ok::<Seq<Target>, Seq<char>>(ts@),
        decreases names.len() - i,
    {
        let n = names[i].as_str();
        assert(names.deep_view()[i as int] == n@);
        if text::str_eq(n, "cursor") {
            ts.push(Target::Cursor);
        } else if text::str_eq(n, "copilot") {
            ts.push(Target::Copilot);
        } else {
            let mut m = String::new();
            text::push_str(&mut m, "unknown target: ");
            text::push_str(&mut m, n);
            proof {
                assert(targets_upto(names.deep_view(), i + 1) == Err::<Seq<Target>, Seq<char>>(
                    m@,
                ));
                lemma_targets_err_stays(names.deep_view(), i + 1, names.len() as int);
            }
            return Err(m);
        }
        i = i + 1;
    }
    Ok(ts)
}

/// The mode that the command-line flags select: `--fix` (with
/// `--overwrite` where given) before `--pr`, and a check where neither is
/// given.
pub fn mode_from_flags(fix: bool, pr: bool, overwrite: bool) -> (res: Mode)
    ensures
        res == (if fix {
            Mode::Fix { overwrite }
        } else if pr {
            Mode::Pr
        } else {
            Mode::Check
        }),
{
    if fix {
        Mode::Fix { overwrite }
    } else if pr {
        Mode::Pr
    } else {
        Mode::Check
    }
}

/// The targets named on the command line, as `parse_targets` reads them;
/// every target where none is named.
pub fn targets_from_names(names: &[String]) -> (res: Result<Vec<Target>, String>)
    ensures
        names@.len() == 0 ==> (res matches Ok(ts) && ts@ == seq![Target::Cursor, Target::Copilot]),
        names@.len() > 0 ==> match res {
            Ok(ts) => targets_of(names.deep_view()) == Ok::<Seq<Target>, Seq<char>>(ts@),
            Err(e) => targets_of(names.deep_view()) == Err::<Seq<Target>, Seq<char>>(e@),
        },
{
    if names.len() == 0 {
        Ok(all_targets())
    } else {
        parse_targets(names)
    }
}

/// The exit status of a run once its files are rendered: `0` where a check
/// or a report finds everything in sync, or a fix skipped nothing; `1`
/// otherwise.
pub fn exit_status(mode: Mode, result: &output::OutputResult) -> (res: u8)
    ensures
        res == (match mode {
            Mode::Fix { .. } => if result.skipped@.len() == 0 {
                0u8
            } else {
                1u8
            },
            _ => if result.stale@.len() == 0 && result.skipped@.len() == 0 {
                0u8
            } else {
                1u8
            },
        }),
{
    match mode {
        Mode::Fix { .. } => if result.skipped.len() == 0 {
            0
        } else {
            1
        },
        _ => if result.is_in_sync() {
            0
        } else {
            1
        },
    }
}

} // verus!
