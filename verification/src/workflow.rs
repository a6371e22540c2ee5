use vstd::prelude::*;

use crate::app::App;
use crate::diff::styled_output;
use crate::svn::{args_view, opt_view};
use crate::text::{
    char_rows, chars_eq, chars_of, lines, replace_all, replace_str, split_lines, string_of,
    string_views, trim, trim_end_char, trim_range, trim_start_char, leading_count,
    trailing_trimmed_len, byte_len,
};
use crate::tree::{insert_unique_sorted, str_lt};
use crate::types::{
    diff_views, file_views, ActiveWindow, CommitField, DiffLine, FileTreeNode, FileView,
    NodeView, PathSet,
};

verus! {

/// The text of the first line of `s`, if it has one.
pub open spec fn first_line(s: Seq<char>) -> Option<Seq<char>> {
    if lines(s).len() > 0 {
        Some(lines(s)[0])
    } else {
        None
    }
}

/// Why the branch list could not be read.
pub enum BranchListFailure {
    /// `svn info` gave no working-copy URL.
    NoWorkingCopyUrl,
    /// `svn list` failed; this is what it wrote to stderr.
    ListFailed(String),
    /// `svn` could not be run.
    CouldNotRun,
}

/// The message the Branches panel shows for `failure`.
pub open spec fn branch_failure_message(failure: BranchListFailure) -> Seq<char> {
    match failure {
        BranchListFailure::NoWorkingCopyUrl => "Error: could not determine working copy URL"@,
        BranchListFailure::ListFailed(stderr) => "Error: "@ + match first_line(stderr@) {
            Some(l) => l,
            None => "svn list failed"@,
        },
        BranchListFailure::CouldNotRun => "Error: failed to run svn"@,
    }
}

/// The branches in `svn list` output: each line without its trailing `/`s, blank
/// results dropped.
pub open spec fn branch_entries(ls: Seq<Seq<char>>) -> Seq<Seq<char>>
    decreases ls.len(),
{
    if ls.len() == 0 {
        Seq::empty()
    } else {
        let prev = branch_entries(ls.drop_last());
        let b = trim_end_char(ls.last(), '/');
        if b.len() > 0 {
            prev.push(b)
        } else {
            prev
        }
    }
}

/// The working-copy URL that `svn info --show-item url` printed: its trimmed
/// output, when that is not empty.
pub fn working_copy_url(stdout: &str) -> (res: Option<String>)
    ensures
        opt_view(res) == if trim(stdout@).len() > 0 {
            Some(trim(stdout@))
        } else {
            None::<Seq<char>>
        },
{
    let cs = chars_of(stdout);
    let t = trim_range(&cs, 0, cs.len());
    assert(cs@.subrange(0, cs@.len() as int) =~= cs@);
    if t.len() == 0 {
        None
    } else {
        Some(string_of(&t))
    }
}

/// The URL of the branches directory: the working-copy URL with every `/trunk`
/// replaced by `/branches`.
pub fn branches_url(wc_url: &str) -> (res: String)
    ensures
        res@ == replace_all(wc_url@, "/trunk"@, "/branches"@),
{
    let cs = chars_of(wc_url);
    let from = chars_of("/trunk");
    let to = chars_of("/branches");
    proof {
        reveal_strlit("/trunk");
    }
    string_of(&replace_str(&cs, &from, &to))
}

/// The branches in `svn list` output (see `branch_entries`).
fn parse_branch_list(output: &str) -> (res: Vec<String>)
    ensures
        string_views(res@) == branch_entries(lines(output@)),
{
    let cs = chars_of(output);
    let ls = split_lines(&cs);
    let ghost want = lines(output@);
    let mut res: Vec<String> = Vec::new();
    let mut i: usize = 0;
    assert(want.take(0) =~= Seq::<Seq<char>>::empty());
    assert(string_views(res@) =~= Seq::<Seq<char>>::empty());
    while i < ls.len()
        invariant
            i <= ls.len(),
            want == lines(output@),
            char_rows(ls@) == want,
            string_views(res@) == branch_entries(want.take(i as int)),
        decreases ls.len() - i,
    {
        assert(want[i as int] == ls@[i as int]@);
        assert(want.take(i + 1).drop_last() =~= want.take(i as int));
        assert(want.take(i + 1).last() == ls@[i as int]@);
        let n = trailing_trimmed_len(&ls[i], '/');
        if n > 0 {
            let b = crate::text::copy_range(&ls[i], 0, n);
            let ghost before = string_views(res@);
            res.push(string_of(&b));
            assert(string_views(res@) =~= before.push(b@));
        }
        i += 1;
    }
    assert(want.take(i as int) =~= want);
    res
}

/// The paths of `ps` in increasing order, each once.
pub open spec fn sorted_paths(ps: Seq<Seq<char>>) -> Seq<Seq<char>>
    decreases ps.len(),
{
    if ps.len() == 0 {
        Seq::empty()
    } else {
        insert_unique_sorted(sorted_paths(ps.drop_last()), ps.last())
    }
}

/// Each of `ps` followed by a newline.
pub open spec fn newline_terminated(ps: Seq<Seq<char>>) -> Seq<char>
    decreases ps.len(),
{
    if ps.len() == 0 {
        Seq::empty()
    } else {
        newline_terminated(ps.drop_last()) + ps.last() + seq!['\n']
    }
}

/// The status `svn status` gave `path`: that of the last entry of `files` with this
/// path (as a map built from the list keeps it).
pub open spec fn status_of(files: Seq<FileView>, path: Seq<char>) -> Option<Seq<char>>
    decreases files.len(),
{
    if files.len() == 0 {
        None
    } else if files.last().path == path {
        Some(files.last().status)
    } else {
        status_of(files.drop_last(), path)
    }
}

/// The paths of `ps` whose status in `files` is `st`, in order.
pub open spec fn with_status(ps: Seq<Seq<char>>, files: Seq<FileView>, st: Seq<char>) -> Seq<
    Seq<char>,
>
    decreases ps.len(),
{
    if ps.len() == 0 {
        Seq::empty()
    } else {
        let prev = with_status(ps.drop_last(), files, st);
        if status_of(files, ps.last()) == Some(st) {
            prev.push(ps.last())
        } else {
            prev
        }
    }
}

/// The paths of the entries of `files` whose own status is `st`, in order.
pub open spec fn paths_with_own_status(files: Seq<FileView>, st: Seq<char>) -> Seq<Seq<char>>
    decreases files.len(),
{
    if files.len() == 0 {
        Seq::empty()
    } else {
        let prev = paths_with_own_status(files.drop_last(), st);
        if files.last().status == st {
            prev.push(files.last().path)
        } else {
            prev
        }
    }
}

/// The paths of all entries of `files`, in order.
pub open spec fn all_paths(files: Seq<FileView>) -> Seq<Seq<char>> {
    files.map_values(|f: FileView| f.path)
}

/// What a commit comes to: the `svn add` to run first for unversioned files, the
/// `svn delete` for missing ones, and the `svn commit` itself.
pub struct CommitPlan {
    /// `svn add` of the unversioned (`?`) files, when there are any.
    pub add_args: Option<Vec<String>>,
    /// `svn delete` of the missing (`!`) files, when there are any.
    pub delete_args: Option<Vec<String>>,
    /// `svn commit -m <message> [--username <u>] [--password <p>] <files>`.
    pub commit_args: Vec<String>,
}

/// `command` followed by `paths`, when `paths` is not empty.
pub open spec fn command_for(command: Seq<char>, paths: Seq<Seq<char>>) -> Option<Seq<Seq<char>>> {
    if paths.len() == 0 {
        None
    } else {
        Some(seq![command] + paths)
    }
}

/// The text of optional argument lists.
pub open spec fn opt_args_view(a: Option<Vec<String>>) -> Option<Seq<Seq<char>>> {
    match a {
        Some(v) => Some(args_view(v@)),
        None => None,
    }
}

/// `args` followed by a copy of each of `more`.
fn extend_strings(args: &mut Vec<String>, more: &Vec<String>)
    ensures
        string_views(final(args)@) == string_views(old(args)@) + string_views(more@),
{
    let mut i: usize = 0;
    while i < more.len()
        invariant
            i <= more.len(),
            string_views(args@) == string_views(old(args)@) + string_views(more@).take(i as int),
        decreases more.len() - i,
    {
        let ghost before = string_views(args@);
        args.push(more[i].clone());
        assert(string_views(args@) =~= before.push(more@[i as int]@));
        assert(string_views(more@).take(i + 1) =~= string_views(more@).take(i as int).push(
            more@[i as int]@,
        ));
        i += 1;
    }
    assert(string_views(more@).take(i as int) =~= string_views(more@));
}

/// `svn <command> <paths>`, when `paths` is not empty.
fn command_with_paths(command: &str, paths: &Vec<String>) -> (res: Option<Vec<String>>)
    ensures
        opt_args_view(res) == command_for(command@, string_views(paths@)),
{
    if paths.len() == 0 {
        return None;
    }
    let mut args: Vec<String> = Vec::new();
    args.push(command.to_owned());
    assert(string_views(args@) =~= seq![command@]);
    extend_strings(&mut args, paths);
    Some(args)
}

/// The `svn delete --force` command for `targets`.
pub fn delete_args(targets: &Vec<String>) -> (args: Vec<String>)
    ensures
        args_view(args@) == seq!["delete"@, "--force"@] + string_views(targets@),
{
    let mut args: Vec<String> = Vec::new();
    args.push(String::from_str("delete"));
    args.push(String::from_str("--force"));
    assert(string_views(args@) =~= seq!["delete"@, "--force"@]);
    extend_strings(&mut args, targets);
    args
}

/// The `svn revert --depth infinity` command for `targets`.
pub fn revert_args(targets: &Vec<String>) -> (args: Vec<String>)
    ensures
        args_view(args@) == seq!["revert"@, "--depth"@, "infinity"@] + string_views(targets@),
{
    let mut args: Vec<String> = Vec::new();
    args.push(String::from_str("revert"));
    args.push(String::from_str("--depth"));
    args.push(String::from_str("infinity"));
    assert(string_views(args@) =~= seq!["revert"@, "--depth"@, "infinity"@]);
    extend_strings(&mut args, targets);
    args
}

/// A target path relative to a backup directory: the path without its leading `/`s.
pub fn strip_leading_slashes(target: &str) -> (res: &str)
    ensures
        res@ == trim_start_char(target@, '/'),
{
    let cs = chars_of(target);
    let k = leading_count(&cs, '/');
    target.substring_char(k, cs.len())
}

/// Whether some line of `existing` trims to `target`.
pub open spec fn ignore_listed(existing: Seq<char>, target: Seq<char>) -> bool {
    exists|i: int| 0 <= i < lines(existing).len() && trim(#[trigger] lines(existing)[i]) == target
}

/// What to append to the ignore file with contents `existing` to add `target`:
/// nothing when a line already trims to it, otherwise the target on a line of its
/// own (after a newline when the file does not end with one).
pub open spec fn ignore_addition(existing: Seq<char>, target: Seq<char>) -> Option<Seq<char>> {
    if ignore_listed(existing, target) {
        None
    } else if existing.len() == 0 || existing.last() == '\n' {
        Some(target + seq!['\n'])
    } else {
        Some(seq!['\n'] + target + seq!['\n'])
    }
}

/// What to append to the ignore file to add `target` (see `ignore_addition`).
pub fn ignore_line_to_append(existing: &str, target: &str) -> (res: Option<String>)
    ensures
        opt_view(res) == ignore_addition(existing@, target@),
{
    let cs = chars_of(existing);
    let t = chars_of(target);
    let ls = split_lines(&cs);
    let ghost all = lines(existing@);
    let mut i: usize = 0;
    while i < ls.len()
        invariant
            i <= ls.len(),
            all == lines(existing@),
            char_rows(ls@) == all,
            t@ == target@,
            forall|j: int| 0 <= j < i ==> trim(#[trigger] all[j]) != target@,
        decreases ls.len() - i,
    {
        assert(all[i as int] == ls@[i as int]@);
        assert(ls@[i as int]@.subrange(0, ls@[i as int]@.len() as int) =~= ls@[i as int]@);
        let tl = trim_range(&ls[i], 0, ls[i].len());
        if chars_eq(&tl, &t) {
            return None;
        }
        i += 1;
    }
    let mut out: Vec<char> = Vec::new();
    if cs.len() != 0 && cs[cs.len() - 1] != '\n' {
        out.push('\n');
    }
    let ghost base = out@;
    let mut q: usize = 0;
    while q < t.len()
        invariant
            q <= t.len(),
            out@ == base + t@.take(q as int),
        decreases t.len() - q,
    {
        out.push(t[q]);
        q += 1;
    }
    assert(t@.take(t.len() as int) =~= t@);
    out.push('\n');
    proof {
        if cs.len() != 0 && cs@.last() != '\n' {
            assert(out@ =~= seq!['\n'] + target@ + seq!['\n']);
        } else {
            assert(out@ =~= target@ + seq!['\n']);
        }
    }
    Some(string_of(&out))
}

impl App {
    /// Take in `svn list` output: its entries (see `branch_entries`) become the
    /// branch list, and the first is selected when nothing was.
    pub fn apply_branch_list(&mut self, output: &str)
        ensures
            string_views(final(self).branch_list@) == branch_entries(lines(output@)),
            final(self).branch_list_state@ == if final(self).branch_list@.len() > 0
                && old(self).branch_list_state@ is None {
                Some(0usize)
            } else {
                old(self).branch_list_state@
            },
            *final(self) == (App {
                branch_list: final(self).branch_list,
                branch_list_state: final(self).branch_list_state,
                ..*old(self)
            }),
    {
        self.branch_list = parse_branch_list(output);
        if self.branch_list.len() > 0 && self.branch_list_state.selected().is_none() {
            self.branch_list_state.select(Some(0));
        }
    }

    /// Show in the Branches panel why the branches could not be listed, with
    /// nothing selected.
    pub fn show_branch_failure(&mut self, failure: BranchListFailure)
        ensures
            string_views(final(self).branch_list@) == seq![branch_failure_message(failure)],
            final(self).branch_list_state@ is None,
            *final(self) == (App {
                branch_list: final(self).branch_list,
                branch_list_state: final(self).branch_list_state,
                ..*old(self)
            }),
    {
        let ghost f = failure;
        let message = match failure {
            BranchListFailure::NoWorkingCopyUrl => String::from_str(
                "Error: could not determine working copy URL",
            ),
            BranchListFailure::ListFailed(stderr) => {
                let cs = chars_of(stderr.as_str());
                let ls = split_lines(&cs);
                let mut m = chars_of("Error: ");
                let ghost head = m@;
                if ls.len() > 0 {
                    assert(char_rows(ls@)[0] == ls@[0]@);
                    let first = &ls[0];
                    let mut q: usize = 0;
                    while q < first.len()
                        invariant
                            q <= first.len(),
                            m@ == head + first@.take(q as int),
                        decreases first.len() - q,
                    {
                        m.push(first[q]);
                        q += 1;
                    }
                    assert(first@.take(first.len() as int) =~= first@);
                } else {
                    let fallback = chars_of("svn list failed");
                    let mut q: usize = 0;
                    while q < fallback.len()
                        invariant
                            q <= fallback.len(),
                            m@ == head + fallback@.take(q as int),
                        decreases fallback.len() - q,
                    {
                        m.push(fallback[q]);
                        q += 1;
                    }
                    assert(fallback@.take(fallback.len() as int) =~= fallback@);
                }
                string_of(&m)
            },
            BranchListFailure::CouldNotRun => String::from_str("Error: failed to run svn"),
        };
        let mut list: Vec<String> = Vec::new();
        list.push(message);
        assert(string_views(list@) =~= seq![branch_failure_message(f)]);
        self.branch_list = list;
        self.branch_list_state = crate::types::ListState::default();
    }
}


/// Adds `x` to the increasing, repeat-free list `v` (see `insert_unique_sorted`).
fn insert_sorted_string(v: &mut Vec<String>, x: String)
    ensures
        string_views(final(v)@) == insert_unique_sorted(string_views(old(v)@), x@),
{
    let ghost s = string_views(v@);
    let xc = chars_of(x.as_str());
    let mut i: usize = 0;
    assert(s.skip(0) == s);
    assert(s.take(0) + insert_unique_sorted(s.skip(0), x@) =~= insert_unique_sorted(s, x@));
    while i < v.len()
        invariant
            i <= v.len(),
            v@ == old(v)@,
            s == string_views(v@),
            xc@ == x@,
            insert_unique_sorted(s, x@) == s.take(i as int) + insert_unique_sorted(
                s.skip(i as int),
                x@,
            ),
        decreases v.len() - i,
    {
        let ghost rest = s.skip(i as int);
        assert(rest[0] == v@[i as int]@);
        let vc = chars_of(v[i].as_str());
        if chars_eq(&vc, &xc) {
            assert(insert_unique_sorted(rest, x@) == rest);
            assert(s.take(i as int) + rest =~= s);
            return;
        }
        if crate::tree::chars_lt(&xc, &vc) {
            assert(insert_unique_sorted(rest, x@) == seq![x@] + rest);
            v.insert(i, x);
            assert(string_views(v@) =~= s.take(i as int) + (seq![xc@] + rest));
            return;
        }
        assert(rest.skip(1) =~= s.skip(i + 1));
        assert(insert_unique_sorted(rest, x@) == seq![rest[0]] + insert_unique_sorted(
            rest.skip(1),
            x@,
        ));
        assert(s.take(i + 1) =~= s.take(i as int) + seq![rest[0]]);
        i += 1;
    }
    assert(s.skip(i as int) =~= Seq::<Seq<char>>::empty());
    let ghost xv = x@;
    v.push(x);
    assert(string_views(v@) =~= s.take(i as int) + seq![xv]);
}

/// Whether some entry of `files` has path `p`.
pub open spec fn has_path(files: Seq<FileView>, p: Seq<char>) -> bool {
    exists|j: int| 0 <= j < files.len() && (#[trigger] files[j]).path == p
}

/// The paths a selection file with lines `ls` restores: each trimmed non-blank line
/// that is the path of one of `files`.
pub open spec fn restored_selection(ls: Seq<Seq<char>>, files: Seq<FileView>) -> Set<Seq<char>> {
    Set::new(
        |p: Seq<char>|
            p.len() > 0 && has_path(files, p) && exists|i: int|
                0 <= i < ls.len() && trim(#[trigger] ls[i]) == p,
    )
}

impl App {
    /// The text the marked files are saved as: their paths in increasing order, each
    /// on a line of its own; none when nothing is marked.
    pub open spec fn selection_text(&self) -> Option<Seq<char>> {
        if self.selected_files@ == Set::<Seq<char>>::empty() {
            None
        } else {
            Some(newline_terminated(sorted_paths(self.selected_files.paths())))
        }
    }

    /// The text to persist the marked files as: their paths in increasing order,
    /// each on a line of its own; none when nothing is marked (the file is then
    /// removed).
    pub fn selection_file_contents(&self) -> (res: Option<String>)
        ensures
            opt_view(res) == self.selection_text(),
    {
        if self.selected_files.is_empty() {
            return None;
        }
        let paths = self.selected_files.to_vec();
        let ghost ps = string_views(paths@);
        let mut sorted: Vec<String> = Vec::new();
        let mut i: usize = 0;
        assert(ps.take(0) =~= Seq::<Seq<char>>::empty());
        assert(string_views(sorted@) =~= Seq::<Seq<char>>::empty());
        while i < paths.len()
            invariant
                i <= paths.len(),
                ps == string_views(paths@),
                string_views(sorted@) == sorted_paths(ps.take(i as int)),
            decreases paths.len() - i,
        {
            assert(ps.take(i + 1).drop_last() =~= ps.take(i as int));
            assert(ps.take(i + 1).last() == paths@[i as int]@);
            insert_sorted_string(&mut sorted, paths[i].clone());
            i += 1;
        }
        assert(ps.take(i as int) =~= ps);
        let ghost sv = string_views(sorted@);
        let mut out: Vec<char> = Vec::new();
        let mut j: usize = 0;
        assert(sv.take(0) =~= Seq::<Seq<char>>::empty());
        while j < sorted.len()
            invariant
                j <= sorted.len(),
                sv == string_views(sorted@),
                out@ == newline_terminated(sv.take(j as int)),
            decreases sorted.len() - j,
        {
            let p = chars_of(sorted[j].as_str());
            let ghost base = out@;
            let mut q: usize = 0;
            while q < p.len()
                invariant
                    q <= p.len(),
                    out@ == base + p@.take(q as int),
                decreases p.len() - q,
            {
                out.push(p[q]);
                q += 1;
            }
            assert(p@.take(p.len() as int) =~= p@);
            out.push('\n');
            assert(sv.take(j + 1).drop_last() =~= sv.take(j as int));
            assert(sv.take(j + 1).last() == p@);
            j += 1;
        }
        assert(sv.take(j as int) =~= sv);
        Some(string_of(&out))
    }

    /// Whether some changed file has path `p`.
    fn is_known_file(&self, p: &[char]) -> (res: bool)
        ensures
            res == has_path(file_views(self.file_list@), p@),
    {
        let ghost fv = file_views(self.file_list@);
        let mut i: usize = 0;
        while i < self.file_list.len()
            invariant
                i <= self.file_list.len(),
                fv == file_views(self.file_list@),
                forall|j: int| 0 <= j < i ==> (#[trigger] fv[j]).path != p@,
            decreases self.file_list.len() - i,
        {
            let c = chars_of(self.file_list[i].path.as_str());
            if chars_eq(&c, p) {
                assert(fv[i as int].path == p@);
                return true;
            }
            i += 1;
        }
        false
    }

    /// Restore the marked files from the text of the selection file, keeping only
    /// paths that are still in the file list (see `restored_selection`).
    pub fn apply_selection_contents(&mut self, contents: &str)
        ensures
            final(self).selected_files@ == restored_selection(
                lines(contents@),
                file_views(old(self).file_list@),
            ),
            *final(self) == (App { selected_files: final(self).selected_files, ..*old(self) }),
    {
        self.selected_files.clear();
        let cs = chars_of(contents);
        let ls = split_lines(&cs);
        let ghost all = lines(contents@);
        let ghost fv = file_views(self.file_list@);
        let mut i: usize = 0;
        while i < ls.len()
            invariant
                i <= ls.len(),
                all == lines(contents@),
                char_rows(ls@) == all,
                fv == file_views(self.file_list@),
                self.selected_files@ == restored_selection(all.take(i as int), fv),
                *self == (App { selected_files: self.selected_files, ..*old(self) }),
            decreases ls.len() - i,
        {
            assert(all[i as int] == ls@[i as int]@);
            assert(ls@[i as int]@.subrange(0, ls@[i as int]@.len() as int) =~= ls@[i as int]@);
            let t = trim_range(&ls[i], 0, ls[i].len());
            let ghost before = self.selected_files@;
            if t.len() > 0 && self.is_known_file(&t) {
                self.selected_files.insert(string_of(&t));
            }
            proof {
                let next = restored_selection(all.take(i + 1), fv);
                assert forall|p: Seq<char>| #![auto] next.contains(p) <==> self.selected_files@.contains(p) by {
                    if next.contains(p) {
                        let k = choose|k: int|
                            0 <= k < all.take(i + 1).len() && trim(#[trigger] all.take(i + 1)[k]) == p;
                        if k < i {
                            assert(all.take(i as int)[k] == all.take(i + 1)[k]);
                        }
                    }
                    if before.contains(p) {
                        let k = choose|k: int|
                            0 <= k < all.take(i as int).len() && trim(#[trigger] all.take(i as int)[k]) == p;
                        assert(all.take(i + 1)[k] == all.take(i as int)[k]);
                    }
                    if t.len() > 0 && has_path(fv, t@) && p == t@ {
                        assert(all.take(i + 1)[i as int] == all[i as int]);
                    }
                }
                assert(self.selected_files@ =~= next);
            }
            i += 1;
        }
        assert(all.take(i as int) =~= all);
    }

    /// Take the targets pending deletion; with none pending, return to the Files panel.
    pub fn take_delete_targets(&mut self) -> (targets: Vec<String>)
        ensures
            targets@ == old(self).delete_targets@,
            final(self).delete_targets@.len() == 0,
            final(self).active_window == if targets@.len() == 0 {
                ActiveWindow::ChangedFiles
            } else {
                old(self).active_window
            },
            *final(self) == (App {
                delete_targets: final(self).delete_targets,
                active_window: final(self).active_window,
                ..*old(self)
            }),
    {
        let mut targets: Vec<String> = Vec::new();
        std::mem::swap(&mut targets, &mut self.delete_targets);
        if targets.len() == 0 {
            self.active_window = ActiveWindow::ChangedFiles;
        }
        targets
    }

    /// Record a delete that ran: remember the backup for undo, clear the marks and
    /// return to the Files panel.
    pub fn finish_delete(&mut self, backup_dir: String, targets: Vec<String>)
        ensures
            final(self).last_backup == Some((backup_dir, targets)),
            final(self).selected_files@ == Set::<Seq<char>>::empty(),
            final(self).active_window == ActiveWindow::ChangedFiles,
            *final(self) == (App {
                last_backup: final(self).last_backup,
                selected_files: final(self).selected_files,
                active_window: final(self).active_window,
                ..*old(self)
            }),
    {
        self.last_backup = Some((backup_dir, targets));
        self.selected_files.clear();
        self.active_window = ActiveWindow::ChangedFiles;
    }

    /// `next` is this state with the backup of the last delete taken out of it.
    pub open spec fn backup_taken(self, backup: Option<(String, Vec<String>)>, next: App) -> bool {
        &&& backup == self.last_backup
        &&& next == (App { last_backup: None, ..self })
    }

    /// Take the backup of the last delete, to restore it; only one delete can be
    /// undone, so none is left afterwards.
    pub fn take_last_backup(&mut self) -> (backup: Option<(String, Vec<String>)>)
        ensures
            old(self).backup_taken(backup, *final(self)),
    {
        self.last_backup.take()
    }

    /// Take the targets pending revert; with none pending, return to the Files panel.
    pub fn take_revert_targets(&mut self) -> (targets: Vec<String>)
        ensures
            targets@ == old(self).revert_targets@,
            final(self).revert_targets@.len() == 0,
            final(self).active_window == if targets@.len() == 0 {
                ActiveWindow::ChangedFiles
            } else {
                old(self).active_window
            },
            *final(self) == (App {
                revert_targets: final(self).revert_targets,
                active_window: final(self).active_window,
                ..*old(self)
            }),
    {
        let mut targets: Vec<String> = Vec::new();
        std::mem::swap(&mut targets, &mut self.revert_targets);
        if targets.len() == 0 {
            self.active_window = ActiveWindow::ChangedFiles;
        }
        targets
    }

    /// Record a revert that ran: clear the marks and return to the Files panel.
    pub fn finish_revert(&mut self)
        ensures
            final(self).selected_files@ == Set::<Seq<char>>::empty(),
            final(self).active_window == ActiveWindow::ChangedFiles,
            *final(self) == (App {
                selected_files: final(self).selected_files,
                active_window: final(self).active_window,
                ..*old(self)
            }),
    {
        self.selected_files.clear();
        self.active_window = ActiveWindow::ChangedFiles;
    }

    /// Take the path pending addition to the ignore file; with none pending,
    /// return to the Files panel.
    pub fn take_ignore_target(&mut self) -> (target: Option<String>)
        ensures
            target == old(self).ignore_target,
            final(self).ignore_target is None,
            final(self).active_window == if target is None {
                ActiveWindow::ChangedFiles
            } else {
                old(self).active_window
            },
            *final(self) == (App {
                ignore_target: final(self).ignore_target,
                active_window: final(self).active_window,
                ..*old(self)
            }),
    {
        let target = self.ignore_target.take();
        if target.is_none() {
            self.active_window = ActiveWindow::ChangedFiles;
        }
        target
    }

    /// Record that `target` is now ignored: it is no longer marked, and the Files
    /// panel has the focus again.
    pub fn finish_ignore(&mut self, target: &str)
        ensures
            final(self).selected_files@ == old(self).selected_files@.remove(target@),
            final(self).active_window == ActiveWindow::ChangedFiles,
            *final(self) == (App {
                selected_files: final(self).selected_files,
                active_window: final(self).active_window,
                ..*old(self)
            }),
    {
        self.selected_files.remove(target);
        self.active_window = ActiveWindow::ChangedFiles;
    }

    /// The files a commit or add covers: the marked ones when any are marked,
    /// otherwise every changed file.
    pub open spec fn commit_scope(&self) -> Seq<Seq<char>> {
        if self.selected_files@ == Set::<Seq<char>>::empty() {
            all_paths(file_views(self.file_list@))
        } else {
            self.selected_files.paths()
        }
    }

    /// The paths of all changed files, in order.
    fn all_file_paths(&self) -> (res: Vec<String>)
        ensures
            string_views(res@) == all_paths(file_views(self.file_list@)),
    {
        let ghost fv = file_views(self.file_list@);
        let mut res: Vec<String> = Vec::new();
        let mut i: usize = 0;
        while i < self.file_list.len()
            invariant
                i <= self.file_list.len(),
                fv == file_views(self.file_list@),
                string_views(res@) == all_paths(fv.take(i as int)),
            decreases self.file_list.len() - i,
        {
            let ghost before = string_views(res@);
            res.push(self.file_list[i].path.clone());
            assert(string_views(res@) =~= before.push(fv[i as int].path));
            assert(all_paths(fv.take(i + 1)) =~= all_paths(fv.take(i as int)).push(
                fv[i as int].path,
            ));
            i += 1;
        }
        assert(fv.take(i as int) =~= fv);
        res
    }

    /// The status `svn status` gave path `p` (see `status_of`).
    fn status_for(&self, p: &[char]) -> (res: Option<Vec<char>>)
        ensures
            match res {
                Some(s) => status_of(file_views(self.file_list@), p@) == Some(s@),
                None => status_of(file_views(self.file_list@), p@) is None,
            },
    {
        let ghost fv = file_views(self.file_list@);
        let mut i = self.file_list.len();
        assert(fv.take(i as int) =~= fv);
        while i > 0
            invariant
                i <= self.file_list.len(),
                fv == file_views(self.file_list@),
                status_of(fv, p@) == status_of(fv.take(i as int), p@),
            decreases i,
        {
            let c = chars_of(self.file_list[i - 1].path.as_str());
            assert(fv.take(i as int).last() == fv[i - 1]);
            if chars_eq(&c, p) {
                return Some(chars_of(self.file_list[i - 1].status.as_str()));
            }
            assert(fv.take(i as int).drop_last() =~= fv.take(i - 1));
            i -= 1;
        }
        None
    }

    /// The paths of `ps` whose status is `st` (see `with_status`).
    fn filter_by_status(&self, ps: &Vec<String>, st: &[char]) -> (res: Vec<String>)
        ensures
            string_views(res@) == with_status(string_views(ps@), file_views(self.file_list@), st@),
    {
        let ghost all = string_views(ps@);
        let mut res: Vec<String> = Vec::new();
        let mut i: usize = 0;
        assert(all.take(0) =~= Seq::<Seq<char>>::empty());
        assert(string_views(res@) =~= Seq::<Seq<char>>::empty());
        while i < ps.len()
            invariant
                i <= ps.len(),
                all == string_views(ps@),
                string_views(res@) == with_status(
                    all.take(i as int),
                    file_views(self.file_list@),
                    st@,
                ),
            decreases ps.len() - i,
        {
            assert(all.take(i + 1).drop_last() =~= all.take(i as int));
            assert(all.take(i + 1).last() == ps@[i as int]@);
            let pc = chars_of(ps[i].as_str());
            let keep = match self.status_for(&pc) {
                Some(sc) => chars_eq(&sc, st),
                None => false,
            };
            if keep {
                let ghost before = string_views(res@);
                res.push(ps[i].clone());
                assert(string_views(res@) =~= before.push(ps@[i as int]@));
            }
            i += 1;
        }
        assert(all.take(i as int) =~= all);
        res
    }

    /// The `svn add` for the unversioned (`?`) files: the marked ones whose status is
    /// `?`, or, when nothing is marked, every changed file listed with status `?`;
    /// none when there are no such files.
    pub fn plan_add(&self) -> (args: Option<Vec<String>>)
        ensures
            opt_args_view(args) == command_for(
                "add"@,
                if self.selected_files@ == Set::<Seq<char>>::empty() {
                    paths_with_own_status(file_views(self.file_list@), "?"@)
                } else {
                    with_status(self.selected_files.paths(), file_views(self.file_list@), "?"@)
                },
            ),
    {
        let q = chars_of("?");
        if self.selected_files.is_empty() {
            let ghost fv = file_views(self.file_list@);
            let mut c: Vec<String> = Vec::new();
            let mut i: usize = 0;
            assert(fv.take(0) =~= Seq::<FileView>::empty());
            assert(string_views(c@) =~= Seq::<Seq<char>>::empty());
            while i < self.file_list.len()
                invariant
                    i <= self.file_list.len(),
                    fv == file_views(self.file_list@),
                    q@ == "?"@,
                    string_views(c@) == paths_with_own_status(fv.take(i as int), "?"@),
                decreases self.file_list.len() - i,
            {
                assert(fv.take(i + 1).drop_last() =~= fv.take(i as int));
                assert(fv.take(i + 1).last() == fv[i as int]);
                let st = chars_of(self.file_list[i].status.as_str());
                if chars_eq(&st, &q) {
                    let ghost before = string_views(c@);
                    c.push(self.file_list[i].path.clone());
                    assert(string_views(c@) =~= before.push(fv[i as int].path));
                }
                i += 1;
            }
            assert(fv.take(i as int) =~= fv);
            command_with_paths("add", &c)
        } else {
            let ps = self.selected_files.to_vec();
            let c = self.filter_by_status(&ps, &q);
            command_with_paths("add", &c)
        }
    }

    /// Plan a commit of the trimmed commit message: none when the message is blank
    /// or there are no files in scope (see `commit_scope`); otherwise the `svn add`
    /// of the unversioned (`?`) and the `svn delete` of the missing (`!`) files in
    /// scope, and the `svn commit` with the username and password when they are set.
    pub fn plan_commit(&self) -> (plan: Option<CommitPlan>)
        ensures
            (trim(self.commit_message@).len() == 0 || self.commit_scope().len() == 0) <==> plan is None,
            plan matches Some(p) ==> {
                let files = self.commit_scope();
                let fv = file_views(self.file_list@);
                &&& opt_args_view(p.add_args) == command_for("add"@, with_status(files, fv, "?"@))
                &&& opt_args_view(p.delete_args) == command_for(
                    "delete"@,
                    with_status(files, fv, "!"@),
                )
                &&& args_view(p.commit_args@) == seq!["commit"@, "-m"@, trim(self.commit_message@)]
                    + (if self.commit_username@.len() > 0 {
                    seq!["--username"@, self.commit_username@]
                } else {
                    Seq::empty()
                }) + (if self.commit_password@.len() > 0 {
                    seq!["--password"@, self.commit_password@]
                } else {
                    Seq::empty()
                }) + files
            },
    {
        let mc = chars_of(self.commit_message.as_str());
        let message = trim_range(&mc, 0, mc.len());
        assert(mc@.subrange(0, mc@.len() as int) =~= mc@);
        let files = if self.selected_files.is_empty() {
            self.all_file_paths()
        } else {
            self.selected_files.to_vec()
        };
        if message.len() == 0 || files.len() == 0 {
            return None;
        }
        let add_args = command_with_paths("add", &self.filter_by_status(&files, &chars_of("?")));
        let delete_args = command_with_paths(
            "delete",
            &self.filter_by_status(&files, &chars_of("!")),
        );
        let mut args: Vec<String> = Vec::new();
        args.push(String::from_str("commit"));
        args.push(String::from_str("-m"));
        args.push(string_of(&message));
        let ghost a0 = string_views(args@);
        assert(a0 =~= seq!["commit"@, "-m"@, message@]);
        if !self.commit_username.as_str().is_empty() {
            args.push(String::from_str("--username"));
            args.push(self.commit_username.clone());
        }
        let ghost a1 = string_views(args@);
        assert(a1 =~= a0 + (if self.commit_username@.len() > 0 {
            seq!["--username"@, self.commit_username@]
        } else {
            Seq::<Seq<char>>::empty()
        }));
        if !self.commit_password.as_str().is_empty() {
            args.push(String::from_str("--password"));
            args.push(self.commit_password.clone());
        }
        assert(string_views(args@) =~= a1 + (if self.commit_password@.len() > 0 {
            seq!["--password"@, self.commit_password@]
        } else {
            Seq::<Seq<char>>::empty()
        }));
        extend_strings(&mut args, &files);
        Some(CommitPlan { add_args, delete_args, commit_args: args })
    }

    /// Record a commit that succeeded: clear the marks, the message, its cursor, the
    /// username and password, put the focus back on the message field and return to
    /// the Files panel.
    pub fn finish_commit(&mut self)
        ensures
            final(self).selected_files@ == Set::<Seq<char>>::empty(),
            final(self).commit_message@.len() == 0,
            final(self).commit_message_cursor == 0,
            final(self).commit_username@.len() == 0,
            final(self).commit_password@.len() == 0,
            final(self).commit_active_field == CommitField::Message,
            final(self).active_window == ActiveWindow::ChangedFiles,
            *final(self) == (App {
                selected_files: final(self).selected_files,
                commit_message: final(self).commit_message,
                commit_message_cursor: final(self).commit_message_cursor,
                commit_username: final(self).commit_username,
                commit_password: final(self).commit_password,
                commit_active_field: final(self).commit_active_field,
                active_window: final(self).active_window,
                ..*old(self)
            }),
    {
        self.selected_files.clear();
        self.commit_message = String::new();
        self.commit_message_cursor = 0;
        self.commit_username = String::new();
        self.commit_password = String::new();
        self.commit_active_field = CommitField::Message;
        self.active_window = ActiveWindow::ChangedFiles;
    }

    /// The text the commit message is saved as while it is being written: the
    /// message itself; none when it is empty (the saved draft is then removed).
    pub open spec fn draft_text(&self) -> Option<Seq<char>> {
        if self.commit_message@.len() == 0 {
            None
        } else {
            Some(self.commit_message@)
        }
    }

    /// The text to save as the commit draft (see `draft_text`).
    pub fn commit_draft_contents(&self) -> (res: Option<String>)
        ensures
            opt_view(res) == self.draft_text(),
    {
        if self.commit_message.as_str().is_empty() {
            None
        } else {
            Some(self.commit_message.clone())
        }
    }

    /// `next` is this state with the saved draft `content` put back into the commit
    /// message and the cursor at its end; an empty draft changes nothing.
    pub open spec fn draft_restored(self, content: Seq<char>, next: App) -> bool {
        if content.len() == 0 {
            next == self
        } else {
            &&& next.commit_message@ == content
            &&& next.commit_message_cursor == byte_len(content) as usize
            &&& (byte_len(content) <= usize::MAX ==> next.cursor_ok() && next.cursor_chars()
                == content.len())
            &&& next == (App {
                commit_message: next.commit_message,
                commit_message_cursor: next.commit_message_cursor,
                ..self
            })
        }
    }

    /// Put a saved draft back into the commit message, with the cursor at its end;
    /// an empty draft changes nothing.
    pub fn restore_commit_draft(&mut self, content: String)
        ensures
            old(self).draft_restored(content@, *final(self)),
    {
        if content.as_str().is_empty() {
            return;
        }
        let n = content.as_str().len();
        proof {
            crate::text::lemma_byte_len_encode(content@);
            assert(content@.take(content@.len() as int) =~= content@);
            if byte_len(content@) <= usize::MAX {
                crate::text::lemma_char_index(content@, n as int, content@.len() as int);
            }
        }
        self.commit_message = content;
        self.commit_message_cursor = n;
    }

    /// The working-copy file whose diff the hovered row asks for, if it is a file row.
    pub fn file_diff_target(&self) -> (path: Option<String>)
        ensures
            opt_view(path) == match self.hovered_row() {
                Some(NodeView::File { path, .. }) => Some(path),
                _ => None::<Seq<char>>,
            },
    {
        if let Some(i) = self.file_list_state.selected() {
            if i < self.visible_items.len() {
                match &self.visible_items[i] {
                    FileTreeNode::File { path, .. } => {
                        return Some(path.clone());
                    },
                    FileTreeNode::Dir { .. } => {},
                }
            }
        }
        None
    }

    /// Show `output` of `svn diff <path>`: the styled lines, scrolled to the top, as
    /// the diff of working-copy file `path`.
    pub fn show_file_diff(&mut self, path: String, output: &str)
        ensures
            diff_views(final(self).current_diff@) == styled_output(output@),
            final(self).diff_scroll == 0,
            final(self).current_diff_file == Some(path),
            *final(self) == (App {
                current_diff: final(self).current_diff,
                diff_scroll: final(self).diff_scroll,
                current_diff_file: final(self).current_diff_file,
                ..*old(self)
            }),
    {
        self.current_diff = App::style_diff_output(output);
        self.diff_scroll = 0;
        self.current_diff_file = Some(path);
    }
}

}
