use vstd::prelude::*;

use crate::app::{clamp_selection, App, REVISION_LOAD_BATCH_SIZE};
use crate::glob::{ignore_pattern_matches, matches_ignore_pattern};
use crate::text::{
    byte_len, char_index, char_index_at, char_rows, chars_of, copy_range, find_str,
    find_str_from, is_boundary, join_chars, join_with, lemma_byte_len_take_increasing,
    lemma_char_index, lemma_find_str, lines, occurs_at, split_lines, split_on_str, split_str,
    string_of, string_views, trim, trim_range, words, split_words, trim_end_char,
    trailing_trimmed_len, replace_all, replace_str, all_digits, is_all_digits, decimal,
    decimal_chars, trim_start_char, leading_count,
};
use crate::tree::tree_rows;
use crate::types::{
    file_views, node_views, FileTreeNode, FileView, NodeView, RevisionView, SvnFile,
    SvnRevision, SvnRevisionFile,
};

verus! {

/// What one line of `svn status` output holds: for a line longer than 8 bytes, its
/// first character (the status column) and the path that starts at byte 8.
pub open spec fn status_entry(l: Seq<char>) -> Option<FileView> {
    if byte_len(l) > 8 {
        Some(FileView { status: l.take(1), path: l.skip(char_index(l, 8)) })
    } else {
        None
    }
}

/// The entries of the lines `ls` of `svn status` output, in order.
pub open spec fn status_entries(ls: Seq<Seq<char>>) -> Seq<FileView>
    decreases ls.len(),
{
    if ls.len() == 0 {
        Seq::empty()
    } else {
        let prev = status_entries(ls.drop_last());
        match status_entry(ls.last()) {
            Some(e) => prev.push(e),
            None => prev,
        }
    }
}

/// Every line longer than 8 bytes can be cut after its first byte and before its
/// ninth (the status columns are ASCII, as `svn status` writes them).
pub open spec fn status_lines_cuttable(ls: Seq<Seq<char>>) -> bool {
    forall|i: int|
        0 <= i < ls.len() && byte_len(#[trigger] ls[i]) > 8 ==> is_boundary(ls[i], 1)
            && is_boundary(ls[i], 8)
}

/// Whether some pattern of `patterns` ignores `path`.
pub open spec fn is_ignored(path: Seq<char>, patterns: Seq<Seq<char>>) -> bool {
    exists|j: int| 0 <= j < patterns.len() && ignore_pattern_matches(path, #[trigger] patterns[j])
}

/// The entries of `files` that no pattern of `patterns` ignores, in order.
pub open spec fn unignored(files: Seq<FileView>, patterns: Seq<Seq<char>>) -> Seq<FileView>
    decreases files.len(),
{
    if files.len() == 0 {
        Seq::empty()
    } else {
        let prev = unignored(files.drop_last(), patterns);
        if is_ignored(files.last().path, patterns) {
            prev
        } else {
            prev.push(files.last())
        }
    }
}

/// The index of the first file row of `rows`, or -1.
pub open spec fn first_file_row(rows: Seq<NodeView>) -> int
    decreases rows.len(),
{
    if rows.len() == 0 {
        -1
    } else if rows[0] is File {
        0
    } else {
        let r = first_file_row(rows.skip(1));
        if r < 0 {
            -1
        } else {
            r + 1
        }
    }
}

/// The changed files that `svn status` printed: one per line longer than 8 bytes,
/// with its status character and the path that starts at byte 8.
pub fn parse_status_output(output: &str) -> (res: Vec<SvnFile>)
    requires
        status_lines_cuttable(lines(output@)),
    ensures
        file_views(res@) == status_entries(lines(output@)),
{
    let cs = chars_of(output);
    let ls = split_lines(&cs);
    let ghost want = lines(output@);
    let mut res: Vec<SvnFile> = Vec::new();
    let mut i: usize = 0;
    assert(want.take(0) =~= Seq::<Seq<char>>::empty());
    assert(file_views(res@) =~= Seq::<FileView>::empty());
    while i < ls.len()
        invariant
            i <= ls.len(),
            want == lines(output@),
            char_rows(ls@) == want,
            status_lines_cuttable(want),
            file_views(res@) == status_entries(want.take(i as int)),
        decreases ls.len() - i,
    {
        let l = &ls[i];
        let ghost lv = l@;
        assert(want[i as int] == lv);
        assert(want.take(i + 1).drop_last() =~= want.take(i as int));
        assert(want.take(i + 1).last() == lv);
        assert(lv.take(lv.len() as int) =~= lv);
        match char_index_at(l, 8) {
            Some(k) => {
                if k < l.len() {
                    proof {
                        lemma_byte_len_take_increasing(lv, k as int, lv.len() as int);
                        assert(is_boundary(lv, 1));
                        let k1 = char_index(lv, 1);
                        assert(byte_len(lv.take(k1)) == 1);
                        if k1 == 0 {
                            assert(lv.take(0) =~= Seq::<char>::empty());
                        }
                        if k1 > 1 {
                            assert(lv.take(1).drop_last() =~= Seq::<char>::empty());
                            lemma_byte_len_take_increasing(lv, 1, k1);
                        }
                    }
                    let status = string_of(&copy_range(l, 0, 1));
                    let path = string_of(&copy_range(l, k, l.len()));
                    let ghost before = file_views(res@);
                    res.push(SvnFile { status, path });
                    assert(lv.subrange(k as int, lv.len() as int) =~= lv.skip(k as int));
                    assert(lv.subrange(0, 1) =~= lv.take(1));
                    assert(file_views(res@) =~= before.push(status_entry(lv)->0));
                } else {
                    assert(status_entry(lv) is None);
                }
            },
            None => {
                proof {
                    if byte_len(lv) > 8 {
                        assert(is_boundary(lv, 8));
                    }
                    if byte_len(lv) == 8 {
                        assert(byte_len(lv.take(lv.len() as int)) == 8);
                    }
                }
            },
        }
        i += 1;
    }
    assert(want.take(i as int) =~= want);
    res
}

/// Whether some pattern of `patterns` ignores `path` (see `is_ignored`).
fn any_pattern_matches(path: &str, patterns: &Vec<String>) -> (res: bool)
    ensures
        res == is_ignored(path@, string_views(patterns@)),
{
    let ghost ps = string_views(patterns@);
    let mut j: usize = 0;
    while j < patterns.len()
        invariant
            j <= patterns.len(),
            ps == string_views(patterns@),
            forall|q: int| 0 <= q < j ==> !ignore_pattern_matches(path@, #[trigger] ps[q]),
        decreases patterns.len() - j,
    {
        assert(ps[j as int] == patterns@[j as int]@);
        if matches_ignore_pattern(path, patterns[j].as_str()) {
            return true;
        }
        j += 1;
    }
    false
}

impl App {
    /// Take in the output of `svn status`: the changed files that no ignore pattern
    /// hides become the file list, the tree is rebuilt, and when nothing was
    /// selected the first file row (or else the first row) is selected. Returns
    /// whether a file row was selected that way, whose diff is then due.
    pub fn apply_status_output(&mut self, output: &str) -> (diff_due: bool)
        requires
            status_lines_cuttable(lines(output@)),
        ensures
            file_views(final(self).file_list@) == unignored(
                status_entries(lines(output@)),
                string_views(old(self).ignore_patterns@),
            ),
            node_views(final(self).visible_items@) == tree_rows(
                file_views(final(self).file_list@),
                old(self).collapsed_dirs@,
                Seq::empty(),
                0,
            ),
            final(self).rows_current(),
            ({
                let rows = node_views(final(self).visible_items@);
                let clamped = clamp_selection(old(self).file_list_state@, rows.len());
                let f = first_file_row(rows);
                if rows.len() > 0 && clamped is None {
                    &&& diff_due == (f >= 0)
                    &&& final(self).file_list_state@ == Some(
                        if f >= 0 {
                            f as usize
                        } else {
                            0usize
                        },
                    )
                } else {
                    &&& !diff_due
                    &&& final(self).file_list_state@ == clamped
                }
            }),
            *final(self) == (App {
                file_list: final(self).file_list,
                visible_items: final(self).visible_items,
                file_list_state: final(self).file_list_state,
                ..*old(self)
            }),
    {
        let parsed = parse_status_output(output);
        let ghost entries = file_views(parsed@);
        let ghost pats = string_views(self.ignore_patterns@);
        let mut kept: Vec<SvnFile> = Vec::new();
        let mut i: usize = 0;
        let mut parsed = parsed;
        assert(entries.take(0) =~= Seq::<FileView>::empty());
        assert(file_views(kept@) =~= Seq::<FileView>::empty());
        while i < parsed.len()
            invariant
                i <= parsed.len(),
                entries == file_views(parsed@),
                pats == string_views(self.ignore_patterns@),
                file_views(kept@) == unignored(entries.take(i as int), pats),
                *self == *old(self),
            decreases parsed.len() - i,
        {
            assert(entries.take(i + 1).drop_last() =~= entries.take(i as int));
            assert(entries.take(i + 1).last() == parsed@[i as int]@);
            let f = &parsed[i];
            if !any_pattern_matches(f.path.as_str(), &self.ignore_patterns) {
                let ghost before = file_views(kept@);
                kept.push(SvnFile { status: f.status.clone(), path: f.path.clone() });
                assert(file_views(kept@) =~= before.push(f@));
            }
            i += 1;
        }
        assert(entries.take(i as int) =~= entries);
        assert(entries == status_entries(lines(output@)));
        self.file_list = kept;
        self.rebuild_visible_items();
        let ghost new_files = file_views(self.file_list@);
        assert(new_files == unignored(status_entries(lines(output@)), pats));
        if self.visible_items.len() > 0 && self.file_list_state.selected().is_none() {
            let ghost rows = node_views(self.visible_items@);
            let mut idx: usize = 0;
            assert(rows.skip(0) =~= rows);
            while idx < self.visible_items.len()
                invariant
                    idx <= self.visible_items.len(),
                    rows == node_views(self.visible_items@),
                    forall|q: int| 0 <= q < idx ==> !(#[trigger] rows[q] is File),
                    new_files == file_views(self.file_list@),
                    new_files == unignored(
                        status_entries(lines(output@)),
                        string_views(old(self).ignore_patterns@),
                    ),
                    rows == tree_rows(new_files, old(self).collapsed_dirs@, Seq::empty(), 0),
                    rows.len() > 0,
                    clamp_selection(old(self).file_list_state@, rows.len()) is None,
                    first_file_row(rows) == if first_file_row(rows.skip(idx as int)) < 0 {
                        -1
                    } else {
                        first_file_row(rows.skip(idx as int)) + idx
                    },
                    *self == (App {
                        file_list: self.file_list,
                        visible_items: self.visible_items,
                        file_list_state: self.file_list_state,
                        ..*old(self)
                    }),
                decreases self.visible_items.len() - idx,
            {
                let ghost rest = rows.skip(idx as int);
                assert(rest[0] == rows[idx as int]);
                let is_file = match &self.visible_items[idx] {
                    FileTreeNode::File { .. } => true,
                    FileTreeNode::Dir { .. } => false,
                };
                if is_file {
                    self.file_list_state.select(Some(idx));
                    return true;
                }
                assert(rest.skip(1) =~= rows.skip(idx + 1));
                idx += 1;
            }
            assert(rows.skip(idx as int) =~= Seq::<NodeView>::empty());
            self.file_list_state.select(Some(0));
        }
        false
    }
}


/// The optional text held by an optional string.
pub open spec fn opt_view(o: Option<String>) -> Option<Seq<char>> {
    match o {
        Some(s) => Some(s@),
        None => None,
    }
}

/// What one line of the ignore file says: its trimmed text, unless that is blank or
/// a `#` comment.
pub open spec fn pattern_of_line(l: Seq<char>) -> Option<Seq<char>> {
    let t = trim(l);
    if t.len() > 0 && t[0] != '#' {
        Some(t)
    } else {
        None
    }
}

/// The patterns that the lines `ls` of the ignore file hold, in order.
pub open spec fn patterns_of(ls: Seq<Seq<char>>) -> Seq<Seq<char>>
    decreases ls.len(),
{
    if ls.len() == 0 {
        Seq::empty()
    } else {
        let prev = patterns_of(ls.drop_last());
        match pattern_of_line(ls.last()) {
            Some(p) => prev.push(p),
            None => prev,
        }
    }
}

/// The ignore patterns in the text of the ignore file: each line trimmed, blank lines
/// and `#` comments dropped.
pub fn parse_ignore_patterns(contents: &str) -> (res: Vec<String>)
    ensures
        string_views(res@) == patterns_of(lines(contents@)),
{
    let cs = chars_of(contents);
    let ls = split_lines(&cs);
    let ghost want = lines(contents@);
    let mut res: Vec<String> = Vec::new();
    let mut i: usize = 0;
    assert(want.take(0) =~= Seq::<Seq<char>>::empty());
    assert(string_views(res@) =~= Seq::<Seq<char>>::empty());
    while i < ls.len()
        invariant
            i <= ls.len(),
            want == lines(contents@),
            char_rows(ls@) == want,
            string_views(res@) == patterns_of(want.take(i as int)),
        decreases ls.len() - i,
    {
        assert(want[i as int] == ls@[i as int]@);
        assert(want.take(i + 1).drop_last() =~= want.take(i as int));
        assert(want.take(i + 1).last() == ls@[i as int]@);
        assert(ls@[i as int]@.subrange(0, ls@[i as int]@.len() as int) =~= ls@[i as int]@);
        let t = trim_range(&ls[i], 0, ls[i].len());
        if t.len() > 0 && t[0] != '#' {
            let ghost before = string_views(res@);
            res.push(string_of(&t));
            assert(string_views(res@) =~= before.push(t@));
        }
        i += 1;
    }
    assert(want.take(i as int) =~= want);
    res
}

/// The value after `prefix` on the first of the lines `ls` that starts with it,
/// trimmed.
pub open spec fn field_value(ls: Seq<Seq<char>>, prefix: Seq<char>) -> Option<Seq<char>>
    decreases ls.len(),
{
    if ls.len() == 0 {
        None
    } else if prefix.is_prefix_of(ls[0]) {
        Some(trim(ls[0].skip(prefix.len() as int)))
    } else {
        field_value(ls.skip(1), prefix)
    }
}

/// The trimmed value after `prefix` on the first line of `ls` that starts with it.
fn find_field(ls: &Vec<Vec<char>>, prefix: &[char]) -> (res: Option<String>)
    ensures
        opt_view(res) == field_value(char_rows(ls@), prefix@),
{
    let ghost all = char_rows(ls@);
    let mut i: usize = 0;
    assert(all.skip(0) =~= all);
    while i < ls.len()
        invariant
            i <= ls.len(),
            all == char_rows(ls@),
            field_value(all, prefix@) == field_value(all.skip(i as int), prefix@),
        decreases ls.len() - i,
    {
        assert(all.skip(i as int)[0] == ls@[i as int]@);
        if occurs_at(&ls[i], 0, prefix) {
            assert(ls@[i as int]@.subrange(0, prefix@.len() as int) =~= prefix@);
            let v = trim_range(&ls[i], prefix.len(), ls[i].len());
            assert(ls@[i as int]@.subrange(prefix.len() as int, ls@[i as int]@.len() as int)
                =~= ls@[i as int]@.skip(prefix.len() as int));
            return Some(string_of(&v));
        }
        assert(all.skip(i as int).skip(1) =~= all.skip(i + 1));
        i += 1;
    }
    None
}

impl App {
    /// Take in the output of `svn info`: the working-copy revision is the value of
    /// the first `Revision: ` line, the repository URL that of the first `URL: `
    /// line, each trimmed (none when there is no such line).
    pub fn apply_svn_info(&mut self, output: &str)
        ensures
            opt_view(final(self).working_copy_revision) == field_value(
                lines(output@),
                "Revision: "@,
            ),
            opt_view(final(self).repository_url) == field_value(lines(output@), "URL: "@),
            *final(self) == (App {
                working_copy_revision: final(self).working_copy_revision,
                repository_url: final(self).repository_url,
                ..*old(self)
            }),
    {
        let cs = chars_of(output);
        let ls = split_lines(&cs);
        let rev_prefix = chars_of("Revision: ");
        let url_prefix = chars_of("URL: ");
        self.working_copy_revision = find_field(&ls, &rev_prefix);
        self.repository_url = find_field(&ls, &url_prefix);
    }
}

/// The 72 dashes that separate the entries of `svn log` output.
pub open spec fn log_separator() -> Seq<char> {
    "------------------------------------------------------------------------"@
}

/// The first three ` | `-separated fields of an `svn log` header line (as
/// `splitn(4, " | ")` cuts it), when it has at least two separators.
pub open spec fn header_fields(h: Seq<char>) -> Option<(Seq<char>, Seq<char>, Seq<char>)> {
    let sep = " | "@;
    let i0 = find_str(h, sep);
    if i0 >= h.len() {
        None
    } else {
        let r1 = h.skip(i0 + sep.len());
        let i1 = find_str(r1, sep);
        if i1 >= r1.len() {
            None
        } else {
            let r2 = r1.skip(i1 + sep.len());
            let i2 = find_str(r2, sep);
            Some((h.take(i0), r1.take(i1), r2.take(i2)))
        }
    }
}

/// The lines of an entry after its header and the (blank) line that follows it.
pub open spec fn body_lines(ls: Seq<Seq<char>>) -> Seq<Seq<char>> {
    if ls.len() > 2 {
        ls.skip(2)
    } else {
        Seq::empty()
    }
}

/// The log entry one block of `svn log` output holds: from the trimmed block's
/// first line its revision, author and date (the first three ` | `-separated
/// fields), and as message the lines after the line that follows the header,
/// joined with spaces and trimmed.
pub open spec fn log_entry(block: Seq<char>) -> Option<RevisionView> {
    let b = trim(block);
    let ls = lines(b);
    if b.len() == 0 || ls.len() == 0 {
        None
    } else {
        match header_fields(ls[0]) {
            Some((r, a, d)) => Some(
                RevisionView {
                    revision: r,
                    author: a,
                    date: d,
                    message: trim(join_with(body_lines(ls), " "@)),
                },
            ),
            None => None,
        }
    }
}

/// The entries of the blocks `bs`, in order.
pub open spec fn log_entries(bs: Seq<Seq<char>>) -> Seq<RevisionView>
    decreases bs.len(),
{
    if bs.len() == 0 {
        Seq::empty()
    } else {
        let prev = log_entries(bs.drop_last());
        match log_entry(bs.last()) {
            Some(e) => prev.push(e),
            None => prev,
        }
    }
}

/// The views of a sequence of log entries.
pub open spec fn revision_views(rs: Seq<SvnRevision>) -> Seq<RevisionView> {
    rs.map_values(|r: SvnRevision| r@)
}

/// The header fields of `h` (see `header_fields`).
fn split_header(h: &[char], sep: &[char]) -> (res: Option<(Vec<char>, Vec<char>, Vec<char>)>)
    requires
        sep@ == " | "@,
    ensures
        match res {
            Some((r, a, d)) => header_fields(h@) == Some((r@, a@, d@)),
            None => header_fields(h@) is None,
        },
{
    let i0 = find_str_from(h, 0, sep);
    assert(h@.skip(0) =~= h@);
    proof {
        lemma_find_str(h@, sep@);
    }
    if i0 >= h.len() {
        return None;
    }
    let s1 = i0 + sep.len();
    let ghost r1 = h@.skip(s1 as int);
    let i1 = find_str_from(h, s1, sep);
    proof {
        lemma_find_str(r1, sep@);
    }
    if i1 >= h.len() {
        return None;
    }
    let s2 = i1 + sep.len();
    let ghost r2 = h@.skip(s2 as int);
    assert(r1.skip(i1 - s1 + sep.len()) =~= r2);
    let i2 = find_str_from(h, s2, sep);
    proof {
        lemma_find_str(r2, sep@);
    }
    let r = copy_range(h, 0, i0);
    let a = copy_range(h, s1, i1);
    let d = copy_range(h, s2, i2);
    assert(r@ =~= h@.take(i0 as int));
    assert(a@ =~= r1.take(i1 - s1));
    assert(d@ =~= r2.take(i2 - s2));
    Some((r, a, d))
}

/// The entry one block of `svn log` output holds (see `log_entry`).
fn parse_log_block(block: &[char], sep: &[char], space: &[char]) -> (res: Option<SvnRevision>)
    requires
        sep@ == " | "@,
        space@ == " "@,
    ensures
        match res {
            Some(r) => log_entry(block@) == Some(r@),
            None => log_entry(block@) is None,
        },
{
    let b = trim_range(block, 0, block.len());
    assert(block@.subrange(0, block@.len() as int) =~= block@);
    if b.len() == 0 {
        return None;
    }
    let ls = split_lines(&b);
    if ls.len() == 0 {
        return None;
    }
    assert(char_rows(ls@)[0] == ls@[0]@);
    match split_header(&ls[0], sep) {
        Some((r, a, d)) => {
            let from = if ls.len() > 2 {
                2
            } else {
                ls.len()
            };
            let joined = join_chars(&ls, from, space);
            proof {
                if ls.len() <= 2 {
                    assert(char_rows(ls@).skip(from as int) =~= Seq::<Seq<char>>::empty());
                }
            }
            let message = trim_range(&joined, 0, joined.len());
            assert(joined@.subrange(0, joined@.len() as int) =~= joined@);
            Some(
                SvnRevision {
                    revision: string_of(&r),
                    author: string_of(&a),
                    date: string_of(&d),
                    message: string_of(&message),
                },
            )
        },
        None => None,
    }
}

/// The log entries in `svn log` output: the blocks between separator lines of 72
/// dashes, each read by `log_entry`; blocks that are blank or whose header has
/// fewer than three fields are skipped.
pub fn parse_log_output(output: &str) -> (res: Vec<SvnRevision>)
    ensures
        revision_views(res@) == log_entries(split_str(output@, log_separator())),
{
    let cs = chars_of(output);
    let sep_line = chars_of("------------------------------------------------------------------------");
    proof {
        reveal_strlit("------------------------------------------------------------------------");
    }
    let field_sep = chars_of(" | ");
    let space = chars_of(" ");
    let blocks = split_on_str(&cs, &sep_line);
    let ghost bs = split_str(output@, log_separator());
    let mut res: Vec<SvnRevision> = Vec::new();
    let mut i: usize = 0;
    assert(bs.take(0) =~= Seq::<Seq<char>>::empty());
    assert(revision_views(res@) =~= Seq::<RevisionView>::empty());
    while i < blocks.len()
        invariant
            i <= blocks.len(),
            bs == split_str(output@, log_separator()),
            char_rows(blocks@) == bs,
            field_sep@ == " | "@,
            space@ == " "@,
            revision_views(res@) == log_entries(bs.take(i as int)),
        decreases blocks.len() - i,
    {
        assert(bs[i as int] == blocks@[i as int]@);
        assert(bs.take(i + 1).drop_last() =~= bs.take(i as int));
        assert(bs.take(i + 1).last() == blocks@[i as int]@);
        match parse_log_block(&blocks[i], &field_sep, &space) {
            Some(r) => {
                let ghost before = revision_views(res@);
                res.push(r);
                assert(revision_views(res@) =~= before.push(r@));
            },
            None => {},
        }
        i += 1;
    }
    assert(bs.take(i as int) =~= bs);
    res
}

impl App {
    /// Take in the output of `svn log`: its entries become the revision list, and
    /// when the list is not empty and nothing was selected the first entry is
    /// selected. Returns whether that happened, after which its diff is due.
    pub fn apply_log_output(&mut self, output: &str) -> (diff_due: bool)
        ensures
            revision_views(final(self).revision_list@) == log_entries(
                split_str(output@, log_separator()),
            ),
            diff_due == (final(self).revision_list@.len() > 0
                && old(self).revision_list_state@ is None),
            final(self).revision_list_state@ == if diff_due {
                Some(0usize)
            } else {
                old(self).revision_list_state@
            },
            *final(self) == (App {
                revision_list: final(self).revision_list,
                revision_list_state: final(self).revision_list_state,
                ..*old(self)
            }),
    {
        self.revision_list = parse_log_output(output);
        if self.revision_list.len() > 0 && self.revision_list_state.selected().is_none() {
            self.revision_list_state.select(Some(0));
            return true;
        }
        false
    }
}


/// What one line of `svn diff --summarize` output holds: its first word as the
/// status and the remaining words joined with single spaces as the path, when there
/// is such a path.
pub open spec fn revision_file_entry(l: Seq<char>) -> Option<FileView> {
    let ws = words(l);
    if ws.len() == 0 {
        None
    } else {
        let path = join_with(ws.skip(1), " "@);
        if path.len() == 0 {
            None
        } else {
            Some(FileView { status: ws[0], path })
        }
    }
}

/// The entries of the lines `ls`, in order.
pub open spec fn revision_file_entries(ls: Seq<Seq<char>>) -> Seq<FileView>
    decreases ls.len(),
{
    if ls.len() == 0 {
        Seq::empty()
    } else {
        let prev = revision_file_entries(ls.drop_last());
        match revision_file_entry(ls.last()) {
            Some(e) => prev.push(e),
            None => prev,
        }
    }
}

/// The views of a sequence of revision files.
pub open spec fn revision_file_views(fs: Seq<SvnRevisionFile>) -> Seq<FileView> {
    fs.map_values(|f: SvnRevisionFile| f@)
}

/// The files that `svn diff --summarize` output lists (see `revision_file_entry`).
pub fn parse_revision_files(output: &str) -> (res: Vec<SvnRevisionFile>)
    ensures
        revision_file_views(res@) == revision_file_entries(lines(output@)),
{
    let cs = chars_of(output);
    let ls = split_lines(&cs);
    let space = chars_of(" ");
    let ghost want = lines(output@);
    let mut res: Vec<SvnRevisionFile> = Vec::new();
    let mut i: usize = 0;
    assert(want.take(0) =~= Seq::<Seq<char>>::empty());
    assert(revision_file_views(res@) =~= Seq::<FileView>::empty());
    while i < ls.len()
        invariant
            i <= ls.len(),
            want == lines(output@),
            char_rows(ls@) == want,
            space@ == " "@,
            revision_file_views(res@) == revision_file_entries(want.take(i as int)),
        decreases ls.len() - i,
    {
        assert(want[i as int] == ls@[i as int]@);
        assert(want.take(i + 1).drop_last() =~= want.take(i as int));
        assert(want.take(i + 1).last() == ls@[i as int]@);
        let ws = split_words(&ls[i]);
        if ws.len() > 0 {
            let path = join_chars(&ws, 1, &space);
            if path.len() > 0 {
                assert(char_rows(ws@)[0] == ws@[0]@);
                let ghost before = revision_file_views(res@);
                let e = SvnRevisionFile { status: string_of(&ws[0]), path: string_of(&path) };
                res.push(e);
                assert(revision_file_views(res@) =~= before.push(e@));
            }
        }
        i += 1;
    }
    assert(want.take(i as int) =~= want);
    res
}

/// The revision number in a revision label: the label without its leading `r`s.
pub open spec fn revision_number_of(rev: Seq<char>) -> Seq<char> {
    trim_start_char(rev, 'r')
}

/// What to run to show the selected revision: `svn diff -c <n> [<url>]`, and the
/// header line to put above its output.
pub struct DiffRequest {
    pub args: Vec<String>,
    pub header: String,
}

/// What showing the selected revision's diff comes to.
pub enum RevisionDiffPlan {
    /// Run `svn` with these arguments and show the output under this header.
    Fetch(DiffRequest),
    /// The selected revision has an invalid number; the diff panel says so already.
    Invalid,
    /// No revision is selected.
    NoSelection,
}

/// The arguments of a `svn` command, as text.
pub open spec fn args_view(args: Seq<String>) -> Seq<Seq<char>> {
    string_views(args)
}

/// Appends `s` to `out`.
pub(crate) fn push_text(out: &mut Vec<char>, s: &[char])
    ensures
        final(out)@ == old(out)@ + s@,
{
    let mut i: usize = 0;
    while i < s.len()
        invariant
            i <= s.len(),
            out@ == old(out)@ + s@.take(i as int),
        decreases s.len() - i,
    {
        out.push(s[i]);
        i += 1;
    }
    assert(s@.take(s.len() as int) =~= s@);
}

/// The header shown above the diff of revision `r`.
pub open spec fn revision_header(r: RevisionView) -> Seq<char> {
    "Revision "@ + r.revision + ": "@ + r.author + " | "@ + r.date + " | "@ + r.message
}

/// The header shown above the diff of file `path` in revision `r`.
pub open spec fn revision_file_header(r: RevisionView, path: Seq<char>) -> Seq<char> {
    "Revision "@ + r.revision + " file: "@ + path
}

impl App {
    /// The selected log entry, if the selection points into the list.
    pub open spec fn selected_revision(&self) -> Option<RevisionView> {
        match self.revision_list_state@ {
            Some(i) => if i < self.revision_list@.len() {
                Some(self.revision_list@[i as int]@)
            } else {
                None
            },
            None => None,
        }
    }

    /// The label without its leading `r`s, e.g. `r42` gives `42`.
    pub fn revision_number(revision: &str) -> (res: &str)
        ensures
            res@ == revision_number_of(revision@),
    {
        let cs = chars_of(revision);
        let k = leading_count(&cs, 'r');
        revision.substring_char(k, cs.len())
    }

    /// The revision number of the selected log entry, as characters, when one is
    /// selected.
    fn selected_revision_number(&self) -> (res: Option<(usize, Vec<char>)>)
        ensures
            match res {
                Some((i, n)) => self.revision_list_state@ == Some(i) && i
                    < self.revision_list@.len() && n@ == revision_number_of(
                    self.revision_list@[i as int].revision@,
                ),
                None => self.selected_revision() is None,
            },
    {
        match self.revision_list_state.selected() {
            Some(i) => {
                if i < self.revision_list.len() {
                    let cs = chars_of(self.revision_list[i].revision.as_str());
                    let k = leading_count(&cs, 'r');
                    let n = copy_range(&cs, k, cs.len());
                    assert(cs@.subrange(k as int, cs@.len() as int) =~= cs@.skip(k as int));
                    Some((i, n))
                } else {
                    None
                }
            },
            None => None,
        }
    }

    /// Decide how to show the selected revision's diff: when its number is not all
    /// digits, the diff panel says `Invalid revision number` (scrolled to the top,
    /// showing no file); otherwise the `svn diff -c` command to run (with the
    /// repository URL when known) and the header to show above its output.
    pub fn plan_revision_diff(&mut self) -> (plan: RevisionDiffPlan)
        ensures
            match old(self).selected_revision() {
                None => plan is NoSelection && *final(self) == *old(self),
                Some(r) => if all_digits(revision_number_of(r.revision)) {
                    &&& plan matches RevisionDiffPlan::Fetch(req) && args_view(req.args@)
                        == seq!["diff"@, "-c"@, revision_number_of(r.revision)] + match old(
                        self,
                    ).repository_url {
                        Some(u) => seq![u@],
                        None => Seq::empty(),
                    } && req.header@ == revision_header(r)
                    &&& *final(self) == *old(self)
                } else {
                    &&& plan is Invalid
                    &&& crate::types::diff_views(final(self).current_diff@) == seq![
                        crate::types::DiffLineView {
                            text: "Invalid revision number"@,
                            fg: None,
                            bold: false,
                        },
                    ]
                    &&& final(self).diff_scroll == 0
                    &&& final(self).current_diff_file is None
                    &&& *final(self) == (App {
                        current_diff: final(self).current_diff,
                        diff_scroll: final(self).diff_scroll,
                        current_diff_file: final(self).current_diff_file,
                        ..*old(self)
                    })
                },
            },
    {
        match self.selected_revision_number() {
            None => RevisionDiffPlan::NoSelection,
            Some((i, n)) => {
                if !is_all_digits(&n) {
                    let mut d: Vec<crate::types::DiffLine> = Vec::new();
                    d.push(
                        crate::types::DiffLine {
                            text: String::from_str("Invalid revision number"),
                            fg: None,
                            bold: false,
                        },
                    );
                    assert(crate::types::diff_views(d@) =~= seq![
                        crate::types::DiffLineView {
                            text: "Invalid revision number"@,
                            fg: None,
                            bold: false,
                        },
                    ]);
                    self.current_diff = d;
                    self.diff_scroll = 0;
                    self.current_diff_file = None;
                    return RevisionDiffPlan::Invalid;
                }
                let mut args: Vec<String> = Vec::new();
                args.push(String::from_str("diff"));
                args.push(String::from_str("-c"));
                args.push(string_of(&n));
                let ghost base = args_view(args@);
                assert(base =~= seq!["diff"@, "-c"@, n@]);
                match &self.repository_url {
                    Some(u) => {
                        args.push(u.clone());
                        assert(args_view(args@) =~= base + seq![u@]);
                    },
                    None => {
                        assert(args_view(args@) =~= base + Seq::<Seq<char>>::empty());
                    },
                }
                let rev = &self.revision_list[i];
                let mut h: Vec<char> = Vec::new();
                push_text(&mut h, &chars_of("Revision "));
                push_text(&mut h, &chars_of(rev.revision.as_str()));
                push_text(&mut h, &chars_of(": "));
                push_text(&mut h, &chars_of(rev.author.as_str()));
                push_text(&mut h, &chars_of(" | "));
                push_text(&mut h, &chars_of(rev.date.as_str()));
                push_text(&mut h, &chars_of(" | "));
                push_text(&mut h, &chars_of(rev.message.as_str()));
                RevisionDiffPlan::Fetch(DiffRequest { args, header: string_of(&h) })
            },
        }
    }

    /// Show `output` of a revision diff under `header`: the header in bold yellow on
    /// top, then the styled lines; scrolled to the top, showing no working-copy file.
    pub fn show_revision_diff(&mut self, header: String, output: &str)
        ensures
            crate::types::diff_views(final(self).current_diff@) == seq![
                crate::types::DiffLineView {
                    text: header@,
                    fg: Some(crate::types::LineColor::Yellow),
                    bold: true,
                },
            ] + crate::diff::styled_output(output@),
            final(self).diff_scroll == 0,
            final(self).current_diff_file is None,
            *final(self) == (App {
                current_diff: final(self).current_diff,
                diff_scroll: final(self).diff_scroll,
                current_diff_file: final(self).current_diff_file,
                ..*old(self)
            }),
    {
        let ghost hv = header@;
        let mut lines = App::style_diff_output(output);
        let ghost styled = crate::types::diff_views(lines@);
        lines.insert(
            0,
            crate::types::DiffLine {
                text: header,
                fg: Some(crate::types::LineColor::Yellow),
                bold: true,
            },
        );
        assert(crate::types::diff_views(lines@) =~= seq![
            crate::types::DiffLineView {
                text: hv,
                fg: Some(crate::types::LineColor::Yellow),
                bold: true,
            },
        ] + styled);
        self.current_diff = lines;
        self.current_diff_file = None;
        self.diff_scroll = 0;
    }

    /// Decide what the file list of the selected revision comes from: the list is
    /// emptied; when a revision with an all-digit number is selected the
    /// `svn diff --summarize -c` command to run (with the repository URL when
    /// known), otherwise nothing and no file is selected.
    pub fn plan_revision_files(&mut self) -> (args: Option<Vec<String>>)
        ensures
            final(self).revision_files@.len() == 0,
            match old(self).selected_revision() {
                Some(r) if all_digits(revision_number_of(r.revision)) => {
                    &&& args matches Some(a) && args_view(a@) == seq![
                        "diff"@,
                        "--summarize"@,
                        "-c"@,
                        revision_number_of(r.revision),
                    ] + match old(self).repository_url {
                        Some(u) => seq![u@],
                        None => Seq::empty(),
                    }
                    &&& final(self).revision_file_list_state@ == old(
                        self,
                    ).revision_file_list_state@
                },
                _ => args is None && final(self).revision_file_list_state@ is None,
            },
            *final(self) == (App {
                revision_files: final(self).revision_files,
                revision_file_list_state: final(self).revision_file_list_state,
                ..*old(self)
            }),
    {
        self.revision_files = Vec::new();
        match self.selected_revision_number() {
            None => {
                self.revision_file_list_state.select(None);
                None
            },
            Some((_i, n)) => {
                if !is_all_digits(&n) {
                    self.revision_file_list_state.select(None);
                    return None;
                }
                let mut args: Vec<String> = Vec::new();
                args.push(String::from_str("diff"));
                args.push(String::from_str("--summarize"));
                args.push(String::from_str("-c"));
                args.push(string_of(&n));
                let ghost base = args_view(args@);
                assert(base =~= seq!["diff"@, "--summarize"@, "-c"@, n@]);
                match &self.repository_url {
                    Some(u) => {
                        args.push(u.clone());
                        assert(args_view(args@) =~= base + seq![u@]);
                    },
                    None => {
                        assert(args_view(args@) =~= base + Seq::<Seq<char>>::empty());
                    },
                }
                Some(args)
            },
        }
    }

    /// Take in `svn diff --summarize` output for the selected revision: its files
    /// become the list; no file is selected when it is empty, otherwise the
    /// selection (the first file when there was none) is kept within the list.
    pub fn apply_revision_files(&mut self, output: &str)
        ensures
            revision_file_views(final(self).revision_files@) == revision_file_entries(
                lines(output@),
            ),
            final(self).revision_file_list_state@ == if final(self).revision_files@.len() == 0 {
                None
            } else {
                let i = match old(self).revision_file_list_state@ {
                    Some(i) => i,
                    None => 0usize,
                };
                Some(
                    if i < final(self).revision_files@.len() {
                        i
                    } else {
                        (final(self).revision_files@.len() - 1) as usize
                    },
                )
            },
            *final(self) == (App {
                revision_files: final(self).revision_files,
                revision_file_list_state: final(self).revision_file_list_state,
                ..*old(self)
            }),
    {
        self.revision_files = parse_revision_files(output);
        let len = self.revision_files.len();
        if len == 0 {
            self.revision_file_list_state.select(None);
            return;
        }
        let i = match self.revision_file_list_state.selected() {
            Some(i) => i,
            None => 0,
        };
        let idx = if i < len {
            i
        } else {
            len - 1
        };
        self.revision_file_list_state.select(Some(idx));
    }

    /// Decide how to show the diff of the selected file of the selected revision:
    /// when both are selected and the revision number is all digits, the
    /// `svn diff -c <n> <path>` command and the header to show above its output.
    pub fn plan_revision_file_diff(&self) -> (req: Option<DiffRequest>)
        ensures
            match (self.selected_revision(), self.revision_file_list_state@) {
                (Some(r), Some(j)) => if j < self.revision_files@.len() && all_digits(
                    revision_number_of(r.revision),
                ) {
                    req matches Some(q) && args_view(q.args@) == seq![
                        "diff"@,
                        "-c"@,
                        revision_number_of(r.revision),
                        self.revision_files@[j as int].path@,
                    ] && q.header@ == revision_file_header(r, self.revision_files@[j as int].path@)
                } else {
                    req is None
                },
                _ => req is None,
            },
    {
        let (i, n) = match self.selected_revision_number() {
            Some(x) => x,
            None => {
                return None;
            },
        };
        let j = match self.revision_file_list_state.selected() {
            Some(j) => j,
            None => {
                return None;
            },
        };
        if j >= self.revision_files.len() || !is_all_digits(&n) {
            return None;
        }
        let file = &self.revision_files[j];
        let mut args: Vec<String> = Vec::new();
        args.push(String::from_str("diff"));
        args.push(String::from_str("-c"));
        args.push(string_of(&n));
        args.push(file.path.clone());
        assert(args_view(args@) =~= seq!["diff"@, "-c"@, n@, file.path@]);
        let rev = &self.revision_list[i];
        let mut h: Vec<char> = Vec::new();
        push_text(&mut h, &chars_of("Revision "));
        push_text(&mut h, &chars_of(rev.revision.as_str()));
        push_text(&mut h, &chars_of(" file: "));
        push_text(&mut h, &chars_of(file.path.as_str()));
        Some(DiffRequest { args, header: string_of(&h) })
    }

    /// The `svn update -r <n>` command that brings the working copy to the
    /// selected revision, when its number is all digits.
    pub fn plan_update_to_revision(&self) -> (args: Option<Vec<String>>)
        ensures
            match self.selected_revision() {
                Some(r) if all_digits(revision_number_of(r.revision)) => args matches Some(a)
                    && args_view(a@) == seq!["update"@, "-r"@, revision_number_of(r.revision)],
                _ => args is None,
            },
    {
        match self.selected_revision_number() {
            None => None,
            Some((_i, n)) => {
                if !is_all_digits(&n) {
                    return None;
                }
                let mut args: Vec<String> = Vec::new();
                args.push(String::from_str("update"));
                args.push(String::from_str("-r"));
                args.push(string_of(&n));
                assert(args_view(args@) =~= seq!["update"@, "-r"@, n@]);
                Some(args)
            },
        }
    }

    /// The `svn log` command for the newest `revision_log_limit` revisions,
    /// from HEAD down so that revisions newer than the working copy are included.
    pub fn log_args(&self) -> (args: Vec<String>)
        ensures
            args_view(args@) == seq![
                "log"@,
                "-r"@,
                "HEAD:1"@,
                "--limit"@,
                decimal(self.revision_log_limit as nat),
            ],
    {
        let mut args: Vec<String> = Vec::new();
        args.push(String::from_str("log"));
        args.push(String::from_str("-r"));
        args.push(String::from_str("HEAD:1"));
        args.push(String::from_str("--limit"));
        args.push(string_of(&decimal_chars(self.revision_log_limit)));
        assert(args_view(args@) =~= seq![
            "log"@,
            "-r"@,
            "HEAD:1"@,
            "--limit"@,
            decimal(self.revision_log_limit as nat),
        ]);
        args
    }

    /// Ask for more revisions next time the log is read.
    pub fn increase_revision_log_limit(&mut self)
        ensures
            final(self).revision_log_limit == if old(self).revision_log_limit as int
                + REVISION_LOAD_BATCH_SIZE <= usize::MAX {
                (old(self).revision_log_limit + REVISION_LOAD_BATCH_SIZE) as usize
            } else {
                usize::MAX
            },
            *final(self) == (App { revision_log_limit: final(self).revision_log_limit, ..*old(self) }),
    {
        self.revision_log_limit = self.revision_log_limit.saturating_add(
            crate::app::REVISION_LOAD_BATCH_SIZE,
        );
    }
}

}
