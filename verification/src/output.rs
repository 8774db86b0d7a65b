//! Deciding what to do with rendered files given what is on disk: which are
//! in sync, which may be written or deleted, and how a difference is shown.
use vstd::prelude::*;

use crate::generate::GeneratedFile;
use crate::path::{path_components, path_eq_exec};
use crate::text::{chars_of, find_sub, find_sub_exec, lemma_find_sub_from, occurs_at, push_str};

verus! {

/// The marker that every generated `.mdc` file carries in its header.
pub open spec fn generated_by_marker() -> Seq<char> {
    "generated-by: agentic-sync"@
}

/// The marker that opens generated Markdown files.
pub open spec fn generated_by_html_marker() -> Seq<char> {
    "<!-- Generated by agentic-sync"@
}

/// Whether a file's text says that this tool wrote it.
pub open spec fn has_marker(text: Seq<char>) -> bool {
    find_sub(text, generated_by_marker()) is Some || find_sub(text, generated_by_html_marker()) is Some
}

/// Whether `text` holds `p`.
fn contains_exec(text: &Vec<char>, p: &str) -> (res: bool)
    ensures
        res == (find_sub(text@, p@) is Some),
{
    let pv = chars_of(p);
    find_sub_exec(text, &pv, 0).is_some()
}

/// Whether a file's text carries the generated-by marker (in the `.mdc`
/// header form or the Markdown comment form).
pub fn has_generated_by_marker(text: &str) -> (res: bool)
    ensures
        res == has_marker(text@),
{
    let v = chars_of(text);
    contains_exec(&v, "generated-by: agentic-sync") || contains_exec(
        &v,
        "<!-- Generated by agentic-sync",
    )
}

/// What is on disk where a file is to be written.
#[derive(Debug, Clone, PartialEq)]
pub enum DiskFile {
    /// Nothing.
    Missing,
    /// A file that could not be read as text.
    Unreadable,
    /// A file with this text.
    Text(String),
}

/// A file on disk, as text.
pub enum DiskView {
    Missing,
    Unreadable,
    Text(Seq<char>),
}

impl View for DiskFile {
    type V = DiskView;

    open spec fn view(&self) -> DiskView {
        match self {
            DiskFile::Missing => DiskView::Missing,
            DiskFile::Unreadable => DiskView::Unreadable,
            DiskFile::Text(t) => DiskView::Text(t@),
        }
    }
}

/// How a rendered file compares with the disk.
#[derive(Debug, Clone, Copy, PartialEq, Eq, Structural)]
pub enum FileStatus {
    /// The disk holds the same text.
    InSync,
    /// The disk holds nothing, something unreadable, or an older generated
    /// text.
    Stale,
    /// The disk holds a different file that this tool did not write.
    Conflict,
}

/// How a rendered text compares with what is on disk.
pub open spec fn status_of(disk: DiskView, generated: Seq<char>) -> FileStatus {
    match disk {
        DiskView::Missing => FileStatus::Stale,
        DiskView::Unreadable => FileStatus::Stale,
        DiskView::Text(t) => if t == generated {
            FileStatus::InSync
        } else if has_marker(t) {
            FileStatus::Stale
        } else {
            FileStatus::Conflict
        },
    }
}

/// How a rendered text compares with what is on disk, as `status_of` says.
pub fn check_file(disk: &DiskFile, generated: &str) -> (res: FileStatus)
    ensures
        res == status_of(disk@, generated@),
{
    match disk {
        DiskFile::Missing => FileStatus::Stale,
        DiskFile::Unreadable => FileStatus::Stale,
        DiskFile::Text(t) => {
            if crate::text::str_eq(t.as_str(), generated) {
                FileStatus::InSync
            } else if has_generated_by_marker(t.as_str()) {
                FileStatus::Stale
            } else {
                FileStatus::Conflict
            }
        },
    }
}

/// Whether a rendered file may be written over what is on disk: always
/// where nothing is there or with `overwrite`, and otherwise only over a
/// file that carries the marker.
pub open spec fn may_write(disk: DiskView, overwrite: bool) -> bool {
    match disk {
        DiskView::Missing => true,
        DiskView::Unreadable => overwrite,
        DiskView::Text(t) => overwrite || has_marker(t),
    }
}

/// Whether a rendered file may be written, as `may_write` says.
pub fn should_write(disk: &DiskFile, overwrite: bool) -> (res: bool)
    ensures
        res == may_write(disk@, overwrite),
{
    match disk {
        DiskFile::Missing => true,
        DiskFile::Unreadable => overwrite,
        DiskFile::Text(t) => overwrite || has_generated_by_marker(t.as_str()),
    }
}

/// Whether `path` is the path of one of `files`: the same components, as
/// `std::path::Path` compares paths.
pub open spec fn is_current(path: Seq<char>, files: Seq<GeneratedFile>) -> bool {
    exists|i: int|
        0 <= i < files.len() && path_components(#[trigger] files[i].path@) == path_components(
            path,
        )
}

/// Whether a file found where generated files go is to be deleted: it is
/// not rendered any more and its text (`None` where it cannot be read)
/// carries the marker.
pub open spec fn deletable(path: Seq<char>, disk_text: Option<Seq<char>>, current: Seq<
    GeneratedFile,
>) -> bool {
    !is_current(path, current) && match disk_text {
        Some(t) => has_marker(t),
        None => false,
    }
}

/// Whether a file found among the generated ones on disk is to be deleted,
/// as `deletable` says. Files that cannot be read are kept.
pub fn should_delete(path: &str, disk_text: Option<&str>, current: &[GeneratedFile]) -> (res: bool)
    ensures
        res == deletable(path@, disk_text.deep_view(), current@),
{
    let mut i: usize = 0;
    while i < current.len()
        invariant
            i <= current.len(),
            forall|k: int|
                0 <= k < i ==> path_components(#[trigger] current@[k].path@) != path_components(
                    path@,
                ),
        decreases current.len() - i,
    {
        if path_eq_exec(current[i].path.as_str(), path) {
            assert(path_components(current@[i as int].path@) == path_components(path@));
            return false;
        }
        i = i + 1;
    }
    match disk_text {
        Some(t) => has_generated_by_marker(t),
        None => false,
    }
}

/// The paths sorted by what a check found, and what a fix did.
#[derive(Debug, Clone, Default)]
pub struct OutputResult {
    pub stale: Vec<String>,
    pub written: Vec<String>,
    pub skipped: Vec<String>,
    pub deleted: Vec<String>,
    pub warnings: Vec<String>,
}

impl OutputResult {
    /// In sync: nothing stale and nothing skipped.
    pub fn is_in_sync(&self) -> (res: bool)
        ensures
            res == (self.stale@.len() == 0 && self.skipped@.len() == 0),
    {
        self.stale.len() == 0 && self.skipped.len() == 0
    }
}

/// The warning for a file on disk that differs and carries no marker.
pub open spec fn conflict_warning(path: Seq<char>) -> Seq<char> {
    path + ": exists without generated-by marker, would conflict"@
}

/// The result of a check: each rendered file compared with what is on disk
/// at its path (`disk[i]` for `files[i]`). Stale files are listed as stale;
/// conflicting ones as skipped, with a warning each.
pub fn check(files: &[GeneratedFile], disk: &[DiskFile]) -> (res: OutputResult)
    requires
        files@.len() == disk@.len(),
    ensures
        res.stale.deep_view() == stale_paths(files@, disk@, files@.len() as int),
        res.skipped.deep_view() == conflict_paths(files@, disk@, files@.len() as int),
        res.warnings.deep_view() == conflict_paths(files@, disk@, files@.len() as int).map_values(
            |p: Seq<char>| conflict_warning(p),
        ),
        res.written@.len() == 0,
        res.deleted@.len() == 0,
{
    let mut res = OutputResult {
        stale: Vec::new(),
        written: Vec::new(),
        skipped: Vec::new(),
        deleted: Vec::new(),
        warnings: Vec::new(),
    };
    let mut i: usize = 0;
    while i < files.len()
        invariant
            i <= files.len(),
            files@.len() == disk@.len(),
            res.stale.deep_view() == stale_paths(files@, disk@, i as int),
            res.skipped.deep_view() == conflict_paths(files@, disk@, i as int),
            res.warnings.deep_view() == conflict_paths(files@, disk@, i as int).map_values(
                |p: Seq<char>| conflict_warning(p),
            ),
            res.written@.len() == 0,
            res.deleted@.len() == 0,
        decreases files.len() - i,
    {
        let f = &files[i];
        let st = check_file(&disk[i], f.content.as_str());
        let ghost cp = conflict_paths(files@, disk@, i as int);
        match st {
            FileStatus::InSync => {},
            FileStatus::Stale => {
                let ghost before = res.stale.deep_view();
                res.stale.push(f.path.clone());
                assert(res.stale.deep_view() =~= before.push(f.path@));
            },
            FileStatus::Conflict => {
                let ghost before = res.skipped.deep_view();
                let ghost wbefore = res.warnings.deep_view();
                let mut w = f.path.clone();
                push_str(&mut w, ": exists without generated-by marker, would conflict");
                res.warnings.push(w);
                res.skipped.push(f.path.clone());
                assert(res.skipped.deep_view() =~= before.push(f.path@));
                assert(res.warnings.deep_view() =~= wbefore.push(conflict_warning(f.path@)));
                assert(cp.push(f.path@).map_values(|p: Seq<char>| conflict_warning(p)) =~= cp.map_values(
                    |p: Seq<char>| conflict_warning(p),
                ).push(conflict_warning(f.path@)));
            },
        }
        i = i + 1;
    }
    res
}

/// The paths of the first `n` files that a check finds stale.
pub open spec fn stale_paths(files: Seq<GeneratedFile>, disk: Seq<DiskFile>, n: int) -> Seq<
    Seq<char>,
>
    decreases n,
{
    if n <= 0 || n > files.len() || n > disk.len() {
        Seq::empty()
    } else {
        let rest = stale_paths(files, disk, n - 1);
        if status_of(disk[n - 1]@, files[n - 1].content@) == FileStatus::Stale {
            rest.push(files[n - 1].path@)
        } else {
            rest
        }
    }
}

/// The paths of the first `n` files that a check finds in conflict.
pub open spec fn conflict_paths(files: Seq<GeneratedFile>, disk: Seq<DiskFile>, n: int) -> Seq<
    Seq<char>,
>
    decreases n,
{
    if n <= 0 || n > files.len() || n > disk.len() {
        Seq::empty()
    } else {
        let rest = conflict_paths(files, disk, n - 1);
        if status_of(disk[n - 1]@, files[n - 1].content@) == FileStatus::Conflict {
            rest.push(files[n - 1].path@)
        } else {
            rest
        }
    }
}

/// What a line of a diff does.
#[derive(Debug, Clone, Copy, PartialEq, Eq, Structural)]
pub enum DiffTag {
    /// The line is in both texts.
    Equal,
    /// The line is only in the old text.
    Delete,
    /// The line is only in the new text.
    Insert,
}

/// The line diff that `similar` computes from an old text to a new one: each
/// line of either text, tagged, as `similar`'s `Change` displays it (the
/// line, with a newline added where the text lacks one at its end).
pub uninterp spec fn line_diff(old: Seq<char>, new: Seq<char>) -> Seq<(DiffTag, Seq<char>)>;

/// The changes of `similar::TextDiff::from_lines(old, new)`, as
/// `iter_all_changes` yields them, each with its tag and its displayed text.
/// The contract names the result (`line_diff`): it depends on the two texts
/// alone, since no deadline is set.
#[verifier::external_body]
fn line_changes(old: &str, new: &str) -> (res: Vec<(DiffTag, String)>)
    ensures
        diff_view(res@) == line_diff(old@, new@),
{
    similar::TextDiff::from_lines(old, new).iter_all_changes().map(|c| {
        let tag = match c.tag() {
            similar::ChangeTag::Equal => DiffTag::Equal,
            similar::ChangeTag::Delete => DiffTag::Delete,
            similar::ChangeTag::Insert => DiffTag::Insert,
        };
        (tag, format!("{}", c))
    }).collect()
}

/// Diff lines as text.
pub open spec fn diff_view(v: Seq<(DiffTag, String)>) -> Seq<(DiffTag, Seq<char>)> {
    v.map_values(|c: (DiffTag, String)| (c.0, c.1@))
}

/// The sign that a diff line starts with.
pub open spec fn diff_sign(t: DiffTag) -> Seq<char> {
    match t {
        DiffTag::Equal => " "@,
        DiffTag::Delete => "-"@,
        DiffTag::Insert => "+"@,
    }
}

/// The first `n` diff lines, each after its sign.
pub open spec fn diff_lines_upto(cs: Seq<(DiffTag, Seq<char>)>, n: int) -> Seq<char>
    decreases n,
{
    if n <= 0 || n > cs.len() {
        Seq::empty()
    } else {
        diff_lines_upto(cs, n - 1) + diff_sign(cs[n - 1].0) + cs[n - 1].1
    }
}

/// A fenced `diff` block of the lines `cs`, with an empty line before it and
/// one after it.
pub open spec fn diff_block_text(cs: Seq<(DiffTag, Seq<char>)>) -> Seq<char> {
    "\n```diff\n"@ + diff_lines_upto(cs, cs.len() as int) + "```\n\n"@
}

/// The fenced `diff` block of the diff lines `changes`.
pub fn format_diff(changes: &Vec<(DiffTag, String)>) -> (res: String)
    ensures
        res@ == diff_block_text(diff_view(changes@)),
{
    let ghost cs = diff_view(changes@);
    let mut out = String::new();
    push_str(&mut out, "\n```diff\n");
    let ghost head = out@;
    let mut i: usize = 0;
    while i < changes.len()
        invariant
            i <= changes.len(),
            cs == diff_view(changes@),
            out@ == head + diff_lines_upto(cs, i as int),
        decreases changes.len() - i,
    {
        let (tag, line) = &changes[i];
        match tag {
            DiffTag::Equal => push_str(&mut out, " "),
            DiffTag::Delete => push_str(&mut out, "-"),
            DiffTag::Insert => push_str(&mut out, "+"),
        }
        push_str(&mut out, line.as_str());
        assert(cs[i as int] == (*tag, line@));
        assert(out@ =~= head + diff_lines_upto(cs, i + 1));
        i = i + 1;
    }
    push_str(&mut out, "```\n\n");
    out
}

/// The fenced `diff` block that shows how a file on disk differs from its
/// rendered text, line by line.
pub fn diff_block(existing: &str, generated: &str) -> (res: String)
    ensures
        res@ == diff_block_text(line_diff(existing@, generated@)),
{
    let changes = line_changes(existing, generated);
    format_diff(&changes)
}

/// The index of the first of `files`, from the `i`-th on, whose path is `p`.
pub open spec fn first_with_path(files: Seq<GeneratedFile>, p: Seq<char>, i: int) -> Option<int>
    decreases files.len() - i,
{
    if i < 0 || i >= files.len() {
        None
    } else if files[i].path@ == p {
        Some(i)
    } else {
        first_with_path(files, p, i + 1)
    }
}

/// The part of a drift report about one stale file at `p`: its path, then
/// `(new file)` where nothing is on disk, or else the diff from the disk's
/// text (`existing`) to the first rendered file at `p`.
pub open spec fn report_entry(p: Seq<char>, existing: Option<Seq<char>>, files: Seq<
    GeneratedFile,
>) -> Seq<char> {
    "- `"@ + p + "`\n"@ + match existing {
        None => "  (new file)\n\n"@,
        Some(t) => match first_with_path(files, p, 0) {
            Some(i) => diff_block_text(line_diff(t, files[i].content@)),
            None => Seq::empty(),
        },
    }
}

/// The entries of the first `n` stale files.
pub open spec fn report_entries(
    stale: Seq<Seq<char>>,
    existing: Seq<Option<Seq<char>>>,
    files: Seq<GeneratedFile>,
    n: int,
) -> Seq<char>
    decreases n,
{
    if n <= 0 || n > stale.len() || n > existing.len() {
        Seq::empty()
    } else {
        report_entries(stale, existing, files, n - 1) + report_entry(
            stale[n - 1],
            existing[n - 1],
            files,
        )
    }
}

/// The first `n` warnings, one line each.
pub open spec fn report_warnings(warnings: Seq<Seq<char>>, n: int) -> Seq<char>
    decreases n,
{
    if n <= 0 || n > warnings.len() {
        Seq::empty()
    } else {
        report_warnings(warnings, n - 1) + "- Warning: "@ + warnings[n - 1] + "\n"@
    }
}

/// The Markdown drift report of a check: one line where all is in sync;
/// otherwise a heading, an entry for each stale file, a line for each
/// warning, and how to update. `existing[i]` is what the disk holds at the
/// `i`-th stale path (`None` where nothing is there).
pub open spec fn report_text(
    stale: Seq<Seq<char>>,
    skipped_count: int,
    warnings: Seq<Seq<char>>,
    existing: Seq<Option<Seq<char>>>,
    files: Seq<GeneratedFile>,
) -> Seq<char> {
    if stale.len() == 0 && skipped_count == 0 {
        "All agentic-sync files are in sync.\n"@
    } else {
        "## agentic-sync drift detected\n\n"@
            + "The following files are out of sync with the source config:\n\n"@
            + report_entries(stale, existing, files, stale.len() as int)
            + report_warnings(warnings, warnings.len() as int)
            + "\nRun `agentic-sync --fix` to update.\n"@
    }
}

/// The index of the first of `files` whose path is `p`.
fn find_path(files: &[GeneratedFile], p: &str) -> (res: Option<usize>)
    ensures
        match res {
            Some(i) => i < files@.len() && first_with_path(files@, p@, 0) == Some(i as int),
            None => first_with_path(files@, p@, 0) is None,
        },
{
    let mut i: usize = 0;
    while i < files.len()
        invariant
            i <= files.len(),
            first_with_path(files@, p@, 0) == first_with_path(files@, p@, i as int),
        decreases files.len() - i,
    {
        if crate::text::str_eq(files[i].path.as_str(), p) {
            return Some(i);
        }
        i = i + 1;
    }
    None
}

/// The Markdown drift report for pull requests, as `report_text` says, of a
/// check's `result` on the rendered `files`.
pub fn drift_report(result: &OutputResult, files: &[GeneratedFile], existing: &[Option<String>]) -> (res: String)
    requires
        existing@.len() == result.stale@.len(),
    ensures
        res@ == report_text(
            result.stale.deep_view(),
            result.skipped@.len() as int,
            result.warnings.deep_view(),
            existing.deep_view(),
            files@,
        ),
{
    let mut out = String::new();
    if result.is_in_sync() {
        push_str(&mut out, "All agentic-sync files are in sync.\n");
        return out;
    }
    push_str(&mut out, "## agentic-sync drift detected\n\n");
    push_str(&mut out, "The following files are out of sync with the source config:\n\n");
    let ghost head = out@;
    let ghost sv = result.stale.deep_view();
    let ghost ev = existing.deep_view();
    let mut i: usize = 0;
    while i < result.stale.len()
        invariant
            i <= result.stale.len(),
            existing@.len() == result.stale@.len(),
            sv == result.stale.deep_view(),
            ev == existing.deep_view(),
            out@ == head + report_entries(sv, ev, files@, i as int),
        decreases result.stale.len() - i,
    {
        let p = result.stale[i].as_str();
        let ghost before = out@;
        push_str(&mut out, "- `");
        push_str(&mut out, p);
        push_str(&mut out, "`\n");
        match &existing[i] {
            None => push_str(&mut out, "  (new file)\n\n"),
            Some(t) => match find_path(files, p) {
                Some(j) => {
                    let block = diff_block(t.as_str(), files[j].content.as_str());
                    push_str(&mut out, block.as_str());
                },
                None => {},
            },
        }
        assert(sv[i as int] == p@);
        assert(out@ =~= before + report_entry(sv[i as int], ev[i as int], files@));
        assert(out@ =~= head + report_entries(sv, ev, files@, i + 1));
        i = i + 1;
    }
    let ghost mid = out@;
    let ghost wv = result.warnings.deep_view();
    let mut k: usize = 0;
    while k < result.warnings.len()
        invariant
            k <= result.warnings.len(),
            wv == result.warnings.deep_view(),
            out@ == mid + report_warnings(wv, k as int),
        decreases result.warnings.len() - k,
    {
        push_str(&mut out, "- Warning: ");
        push_str(&mut out, result.warnings[k].as_str());
        push_str(&mut out, "\n");
        assert(out@ =~= mid + report_warnings(wv, k + 1));
        k = k + 1;
    }
    push_str(&mut out, "\nRun `agentic-sync --fix` to update.\n");
    out
}

// ---------------------------------------------------------------------
// Laws
// ---------------------------------------------------------------------

proof fn lemma_occurs_found(s: Seq<char>, p: Seq<char>, k: int)
    requires
        occurs_at(s, p, k),
    ensures
        find_sub(s, p) is Some,
{
    lemma_find_sub_from(s, p, 0);
}

/// Every `.mdc` file rendered for Cursor carries the generated-by marker.
proof fn lemma_mdc_marked(a: Seq<char>, d: Seq<char>, g: Seq<char>, x: Seq<char>, b: Seq<char>)
    ensures
        has_marker(crate::generate::cursor::mdc_text(a, d, g, x, b)),
{
    let t = crate::generate::cursor::mdc_text(a, d, g, x, b);
    let m = generated_by_marker();
    reveal_strlit("---\n");
    assert(t.subrange(4, 4 + m.len() as int) =~= m);
    lemma_occurs_found(t, m, 4);
}

/// The rule file rendered for any section carries the marker, so that a
/// later fix rewrites it and a later cleanup may delete it.
pub proof fn law_rule_files_are_marked(root: Seq<char>, s: crate::ir::SectionView)
    ensures
        has_marker(crate::generate::cursor::rule_file(root, s).1),
{
    let pairs = crate::ir::pairs_for(s.overrides, crate::generate::cursor::cursor_target());
    lemma_mdc_marked(
        crate::generate::cursor::last_override(pairs, "alwaysApply"@, "true"@),
        crate::generate::cursor::last_override(
            pairs,
            "description"@,
            crate::generate::cursor::section_description(s),
        ),
        crate::generate::cursor::last_override(pairs, "globs"@, Seq::empty()),
        crate::generate::cursor::extra_fields(pairs),
        s.body,
    );
}

/// The skill file rendered for any skill carries the marker.
pub proof fn law_skill_files_are_marked(root: Seq<char>, k: crate::ir::SkillView)
    ensures
        has_marker(crate::generate::cursor::skill_file(root, k).1),
{
    let pairs = crate::ir::pairs_for(k.overrides, crate::generate::cursor::cursor_target());
    let always = if k.disable_model_invocation {
        "false"@
    } else {
        "true"@
    };
    let description = match k.description {
        Some(d) => d,
        None => Seq::empty(),
    };
    lemma_mdc_marked(
        crate::generate::cursor::last_override(pairs, "alwaysApply"@, always),
        crate::generate::cursor::last_override(pairs, "description"@, description),
        crate::generate::cursor::last_override(
            pairs,
            "globs"@,
            crate::text::join_with(k.paths, ", "@),
        ),
        crate::generate::cursor::extra_fields(pairs),
        k.body,
    );
}

/// The Copilot instructions rendered for any instructions file carry the
/// marker.
pub proof fn law_copilot_file_is_marked(content: Seq<char>)
    ensures
        has_marker(crate::generate::copilot::copilot_header() + content),
{
    let t = crate::generate::copilot::copilot_header() + content;
    let m = generated_by_html_marker();
    reveal_strlit("<!-- Generated by agentic-sync — do not edit manually -->\n\n");
    reveal_strlit("<!-- Generated by agentic-sync");
    assert(t.subrange(0, m.len() as int) =~= m);
    lemma_occurs_found(t, m, 0);
    assert(find_sub(t, generated_by_html_marker()) is Some);
}

/// A file on disk that holds what was rendered is in sync: a check right
/// after a fix finds nothing to do.
pub proof fn law_written_file_in_sync(generated: Seq<char>)
    ensures
        status_of(DiskView::Text(generated), generated) == FileStatus::InSync,
{
}

/// A rule file that an earlier run rendered never conflicts with a new
/// rendering: a check calls it stale, not foreign, and a fix may write over
/// it without `overwrite`.
pub proof fn law_rendered_rules_are_rewritable(
    root: Seq<char>,
    earlier: crate::ir::SectionView,
    now: crate::ir::SectionView,
)
    ensures
        status_of(
            DiskView::Text(crate::generate::cursor::rule_file(root, earlier).1),
            crate::generate::cursor::rule_file(root, now).1,
        ) != FileStatus::Conflict,
        may_write(DiskView::Text(crate::generate::cursor::rule_file(root, earlier).1), false),
{
    law_rule_files_are_marked(root, earlier);
}

/// A skill file that an earlier run rendered never conflicts with a new
/// rendering, and a fix may write over it without `overwrite`.
pub proof fn law_rendered_skills_are_rewritable(
    root: Seq<char>,
    earlier: crate::ir::SkillView,
    now: crate::ir::SkillView,
)
    ensures
        status_of(
            DiskView::Text(crate::generate::cursor::skill_file(root, earlier).1),
            crate::generate::cursor::skill_file(root, now).1,
        ) != FileStatus::Conflict,
        may_write(DiskView::Text(crate::generate::cursor::skill_file(root, earlier).1), false),
{
    law_skill_files_are_marked(root, earlier);
}

/// With `overwrite`, a fix writes every rendered file, whatever the disk
/// holds at its path.
pub proof fn law_overwrite_writes_regardless(disk: DiskView)
    ensures
        may_write(disk, true),
{
}

/// Without `overwrite`, a fix writes where nothing is, and never over a
/// readable file that does not carry the marker.
pub proof fn law_fix_spares_hand_written_files(t: Seq<char>)
    ensures
        may_write(DiskView::Missing, false),
        !has_marker(t) ==> !may_write(DiskView::Text(t), false),
{
}

/// A hand-written file differing from what is rendered for its path is
/// reported as a conflict, never as stale.
pub proof fn law_hand_written_files_conflict(t: Seq<char>, generated: Seq<char>)
    requires
        !has_marker(t),
        t != generated,
    ensures
        status_of(DiskView::Text(t), generated) == FileStatus::Conflict,
{
}

/// Cleanup never deletes a file without the marker, nor one that cannot be
/// read.
pub proof fn law_cleanup_spares_hand_written_files(
    path: Seq<char>,
    disk_text: Option<Seq<char>>,
    current: Seq<GeneratedFile>,
)
    requires
        disk_text matches Some(t) ==> !has_marker(t),
    ensures
        !deletable(path, disk_text, current),
{
}

/// Cleanup never deletes a file that is rendered now.
pub proof fn law_cleanup_spares_current_files(
    current: Seq<GeneratedFile>,
    i: int,
    disk_text: Option<Seq<char>>,
)
    requires
        0 <= i < current.len(),
    ensures
        !deletable(current[i].path@, disk_text, current),
{
}

/// What the disk holds at the rendered files' paths after a fix that started
/// from `before` (`before[i]` at `files[i].path`): the rendered text where it
/// may be written, and otherwise what was there.
pub open spec fn disk_after_fix(files: Seq<GeneratedFile>, before: Seq<DiskFile>, overwrite: bool) -> Seq<
    DiskFile,
> {
    Seq::new(
        files.len(),
        |i: int|
            if may_write(before[i]@, overwrite) {
                DiskFile::Text(files[i].content)
            } else {
                before[i]
            },
    )
}

proof fn lemma_all_written_in_sync(files: Seq<GeneratedFile>, before: Seq<DiskFile>, overwrite: bool, n: int)
    requires
        before.len() == files.len(),
        0 <= n <= files.len(),
        forall|i: int| 0 <= i < files.len() ==> may_write(#[trigger] before[i]@, overwrite),
    ensures
        stale_paths(files, disk_after_fix(files, before, overwrite), n).len() == 0,
        conflict_paths(files, disk_after_fix(files, before, overwrite), n).len() == 0,
    decreases n,
{
    if n > 0 {
        lemma_all_written_in_sync(files, before, overwrite, n - 1);
        let after = disk_after_fix(files, before, overwrite);
        assert(may_write(before[n - 1]@, overwrite));
        assert(after[n - 1] == DiskFile::Text(files[n - 1].content));
    }
}

/// A check right after a fix that could write every rendered file (nothing
/// on disk, files it wrote before, or `overwrite`) finds nothing stale and
/// nothing in conflict, so it reports the project in sync. The rendered
/// files have paths of their own.
pub proof fn law_check_after_fix_in_sync(
    files: Seq<GeneratedFile>,
    before: Seq<DiskFile>,
    overwrite: bool,
)
    requires
        before.len() == files.len(),
        forall|i: int, j: int|
            0 <= i < j < files.len() ==> path_components(#[trigger] files[i].path@)
                != path_components(#[trigger] files[j].path@),
        forall|i: int| 0 <= i < files.len() ==> may_write(#[trigger] before[i]@, overwrite),
    ensures
        stale_paths(files, disk_after_fix(files, before, overwrite), files.len() as int).len() == 0,
        conflict_paths(files, disk_after_fix(files, before, overwrite), files.len() as int).len()
            == 0,
{
    lemma_all_written_in_sync(files, before, overwrite, files.len() as int);
}

/// When a section is no longer rendered (its rule file's path is not among
/// the files rendered now), a fix's cleanup deletes the rule file that an
/// earlier run wrote for it.
pub proof fn law_fix_deletes_dropped_rule_file(
    root: Seq<char>,
    s: crate::ir::SectionView,
    current: Seq<GeneratedFile>,
)
    requires
        !is_current(crate::generate::cursor::rule_file(root, s).0, current),
    ensures
        deletable(
            crate::generate::cursor::rule_file(root, s).0,
            Some(crate::generate::cursor::rule_file(root, s).1),
            current,
        ),
{
    law_rule_files_are_marked(root, s);
}

/// When a skill is no longer rendered, a fix's cleanup deletes the skill
/// file that an earlier run wrote for it.
pub proof fn law_fix_deletes_dropped_skill_file(
    root: Seq<char>,
    k: crate::ir::SkillView,
    current: Seq<GeneratedFile>,
)
    requires
        !is_current(crate::generate::cursor::skill_file(root, k).0, current),
    ensures
        deletable(
            crate::generate::cursor::skill_file(root, k).0,
            Some(crate::generate::cursor::skill_file(root, k).1),
            current,
        ),
{
    law_skill_files_are_marked(root, k);
}

/// `q` found in `b` is found at the same place after `a` in `a + b + c`.
proof fn lemma_occurs_in_middle(a: Seq<char>, b: Seq<char>, c: Seq<char>, q: Seq<char>, p: int)
    requires
        occurs_at(b, q, p),
    ensures
        occurs_at(a + b + c, q, a.len() + p),
{
    assert((a + b + c).subrange(a.len() + p, a.len() + p + q.len()) =~= b.subrange(p, p + q.len()));
}

proof fn lemma_warning_lines_listed(ws: Seq<Seq<char>>, n: int, k: int)
    requires
        0 <= k < n <= ws.len(),
    ensures
        exists|p: int| occurs_at(report_warnings(ws, n), "- Warning: "@ + ws[k] + "\n"@, p),
    decreases n,
{
    let line = "- Warning: "@ + ws[k] + "\n"@;
    let prev = report_warnings(ws, n - 1);
    if k == n - 1 {
        assert(report_warnings(ws, n) =~= prev + line + Seq::<char>::empty());
        assert(line.subrange(0, line.len() as int) =~= line);
        assert(occurs_at(line, line, 0));
        lemma_occurs_in_middle(prev, line, Seq::<char>::empty(), line, 0);
    } else {
        lemma_warning_lines_listed(ws, n - 1, k);
        let p = choose|p: int| occurs_at(prev, line, p);
        assert(report_warnings(ws, n) =~= Seq::<char>::empty() + prev + ("- Warning: "@ + ws[n - 1]
            + "\n"@));
        lemma_occurs_in_middle(Seq::<char>::empty(), prev, "- Warning: "@ + ws[n - 1] + "\n"@, line, p);
    }
}

proof fn lemma_stale_entries_listed(
    stale: Seq<Seq<char>>,
    existing: Seq<Option<Seq<char>>>,
    files: Seq<GeneratedFile>,
    n: int,
    k: int,
)
    requires
        0 <= k < n <= stale.len(),
        n <= existing.len(),
    ensures
        exists|p: int| occurs_at(report_entries(stale, existing, files, n), "- `"@ + stale[k] + "`\n"@, p),
    decreases n,
{
    let line = "- `"@ + stale[k] + "`\n"@;
    let prev = report_entries(stale, existing, files, n - 1);
    let entry = report_entry(stale[n - 1], existing[n - 1], files);
    assert(report_entries(stale, existing, files, n) == prev + entry);
    if k == n - 1 {
        let tail = entry.skip(line.len() as int);
        assert(entry =~= line + tail);
        assert(line.subrange(0, line.len() as int) =~= line);
        assert(occurs_at(line, line, 0));
        assert(prev + entry =~= prev + line + tail);
        lemma_occurs_in_middle(prev, line, tail, line, 0);
    } else {
        lemma_stale_entries_listed(stale, existing, files, n - 1, k);
        let p = choose|p: int| occurs_at(prev, line, p);
        assert(prev + entry =~= Seq::<char>::empty() + prev + entry);
        lemma_occurs_in_middle(Seq::<char>::empty(), prev, entry, line, p);
    }
}

/// Whether `q` occurs somewhere in `s`.
pub open spec fn contains_text(s: Seq<char>, q: Seq<char>) -> bool {
    exists|p: int| occurs_at(s, q, p)
}

proof fn lemma_report_lists(
    stale: Seq<Seq<char>>,
    skipped_count: int,
    warnings: Seq<Seq<char>>,
    existing: Seq<Option<Seq<char>>>,
    files: Seq<GeneratedFile>,
)
    requires
        existing.len() == stale.len(),
        !(stale.len() == 0 && skipped_count == 0),
    ensures
        report_text(stale, skipped_count, warnings, existing, files) == "## agentic-sync drift detected\n\n"@
            + "The following files are out of sync with the source config:\n\n"@ + report_entries(
            stale,
            existing,
            files,
            stale.len() as int,
        ) + report_warnings(warnings, warnings.len() as int)
            + "\nRun `agentic-sync --fix` to update.\n"@,
        forall|k: int|
            0 <= k < warnings.len() ==> contains_text(
                report_text(stale, skipped_count, warnings, existing, files),
                "- Warning: "@ + #[trigger] warnings[k] + "\n"@,
            ),
        forall|k: int|
            0 <= k < stale.len() ==> contains_text(
                report_text(stale, skipped_count, warnings, existing, files),
                "- `"@ + #[trigger] stale[k] + "`\n"@,
            ),
{
    let r = report_text(stale, skipped_count, warnings, existing, files);
    let head = "## agentic-sync drift detected\n\n"@
        + "The following files are out of sync with the source config:\n\n"@;
    let es = report_entries(stale, existing, files, stale.len() as int);
    let wl = report_warnings(warnings, warnings.len() as int);
    let foot = "\nRun `agentic-sync --fix` to update.\n"@;
    assert(r == head + es + wl + foot);
    assert forall|k: int| 0 <= k < warnings.len() implies contains_text(
        r,
        "- Warning: "@ + #[trigger] warnings[k] + "\n"@,
    ) by {
        lemma_warning_lines_listed(warnings, warnings.len() as int, k);
        let line = "- Warning: "@ + warnings[k] + "\n"@;
        let p = choose|p: int| occurs_at(wl, line, p);
        assert(r =~= (head + es) + wl + foot);
        lemma_occurs_in_middle(head + es, wl, foot, line, p);
        assert(occurs_at(r, line, (head + es).len() + p));
    }
    assert forall|k: int| 0 <= k < stale.len() implies contains_text(
        r,
        "- `"@ + #[trigger] stale[k] + "`\n"@,
    ) by {
        lemma_stale_entries_listed(stale, existing, files, stale.len() as int, k);
        let line = "- `"@ + stale[k] + "`\n"@;
        let p = choose|p: int| occurs_at(es, line, p);
        assert(r =~= head + es + (wl + foot));
        lemma_occurs_in_middle(head, es, wl + foot, line, p);
        assert(occurs_at(r, line, head.len() + p));
    }
}

/// The drift report says that all files are in sync exactly when the check
/// found nothing stale and nothing skipped; otherwise it lists every stale
/// path and every warning of the check.
pub proof fn law_drift_report_hides_nothing(
    stale: Seq<Seq<char>>,
    skipped_count: int,
    warnings: Seq<Seq<char>>,
    existing: Seq<Option<Seq<char>>>,
    files: Seq<GeneratedFile>,
)
    requires
        existing.len() == stale.len(),
    ensures
        (report_text(stale, skipped_count, warnings, existing, files)
            == "All agentic-sync files are in sync.\n"@) <==> (stale.len() == 0 && skipped_count
            == 0),
        !(stale.len() == 0 && skipped_count == 0) ==> forall|k: int|
            0 <= k < warnings.len() ==> contains_text(
                report_text(stale, skipped_count, warnings, existing, files),
                "- Warning: "@ + #[trigger] warnings[k] + "\n"@,
            ),
        !(stale.len() == 0 && skipped_count == 0) ==> forall|k: int|
            0 <= k < stale.len() ==> contains_text(
                report_text(stale, skipped_count, warnings, existing, files),
                "- `"@ + #[trigger] stale[k] + "`\n"@,
            ),
{
    let r = report_text(stale, skipped_count, warnings, existing, files);
    reveal_strlit("All agentic-sync files are in sync.\n");
    reveal_strlit("## agentic-sync drift detected\n\n");
    if !(stale.len() == 0 && skipped_count == 0) {
        lemma_report_lists(stale, skipped_count, warnings, existing, files);
        assert(r[0] == '#');
        assert(r != "All agentic-sync files are in sync.\n"@) by {
            assert("All agentic-sync files are in sync.\n"@[0] == 'A');
        }
    }
}

} // verus!
