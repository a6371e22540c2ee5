use vstd::prelude::*;

use crate::app::App;
use crate::svn::{push_text, revision_number_of};
use crate::text::{
    all_digits, byte_len, chars_of, decimal, decimal_chars, leading_count, lemma_byte_len_encode,
    string_of,
};
use crate::types::{ActiveWindow, FileTreeNode, NodeView, PathSet, RevisionView, SvnRevision};

verus! {

/// The value of the decimal digits `s`.
pub open spec fn digits_value(s: Seq<char>) -> nat
    decreases s.len(),
{
    if s.len() == 0 {
        0
    } else {
        digits_value(s.drop_last()) * 10 + ((s.last() as u32) - ('0' as u32)) as nat
    }
}

/// What `u64::from_str` gives for `s`: an optional `+`, then one or more ASCII digits
/// whose value fits in a `u64`; nothing otherwise.
pub open spec fn parsed_u64(s: Seq<char>) -> Option<u64> {
    let d = if s.len() > 0 && s[0] == '+' {
        s.skip(1)
    } else {
        s
    };
    if d.len() > 0 && all_digits(d) && digits_value(d) <= u64::MAX {
        Some(digits_value(d) as u64)
    } else {
        None
    }
}

/// A longer run of digits is worth at least as much as its start.
proof fn lemma_digits_value_grows(s: Seq<char>, i: int, j: int)
    requires
        0 <= i <= j <= s.len(),
        all_digits(s),
    ensures
        digits_value(s.take(i)) <= digits_value(s.take(j)),
    decreases j - i,
{
    if i < j {
        lemma_digits_value_grows(s, i, j - 1);
        assert(s.take(j).drop_last() =~= s.take(j - 1));
        assert(s.take(j).last() == s[j - 1]);
        assert('0' <= s[j - 1] <= '9');
    }
}

/// The number that `s` spells, as `u64::from_str` reads it (see `parsed_u64`).
pub fn parse_u64(s: &[char]) -> (res: Option<u64>)
    ensures
        res == parsed_u64(s@),
{
    let start: usize = if s.len() > 0 && s[0] == '+' {
        1
    } else {
        0
    };
    let ghost d = s@.skip(start as int);
    assert(d == if s@.len() > 0 && s@[0] == '+' {
        s@.skip(1)
    } else {
        s@
    }) by {
        if start == 0 {
            assert(s@.skip(0) =~= s@);
        }
    }
    if start >= s.len() {
        return None;
    }
    let mut v: u64 = 0;
    let mut i = start;
    assert(d.take(0) =~= Seq::<char>::empty());
    while i < s.len()
        invariant
            start <= i <= s.len(),
            start < s.len(),
            d == s@.skip(start as int),
            d == if s@.len() > 0 && s@[0] == '+' {
                s@.skip(1)
            } else {
                s@
            },
            all_digits(d.take(i - start)),
            v as nat == digits_value(d.take(i - start)),
        decreases s.len() - i,
    {
        let c = s[i];
        assert(d[i - start] == c);
        if !('0' <= c && c <= '9') {
            assert(!all_digits(d));
            return None;
        }
        let dig = (c as u32 - '0' as u32) as u64;
        assert(d.take(i - start + 1).drop_last() =~= d.take(i - start));
        assert(d.take(i - start + 1).last() == c);
        if v > (u64::MAX - dig) / 10 {
            proof {
                assert(digits_value(d.take(i - start + 1)) > u64::MAX) by (nonlinear_arith)
                    requires
                        v > (u64::MAX - dig) / 10,
                        digits_value(d.take(i - start + 1)) == v * 10 + dig,
                        dig <= 9,
                ;
                assert forall|k: int| 0 <= k < d.len() && k < i - start + 1 implies '0' <= #[trigger] d[k]
                    <= '9' by {
                    if k < i - start {
                        assert(d.take(i - start)[k] == d[k]);
                    }
                }
                if all_digits(d) {
                    lemma_digits_value_grows(d, i - start + 1, d.len() as int);
                    assert(d.take(d.len() as int) =~= d);
                }
            }
            return None;
        }
        v = v * 10 + dig;
        assert(all_digits(d.take(i - start + 1))) by {
            assert forall|k: int| 0 <= k < i - start + 1 implies '0' <= #[trigger] d.take(
                i - start + 1,
            )[k] <= '9' by {
                if k < i - start {
                    assert(d.take(i - start)[k] == d.take(i - start + 1)[k]);
                }
            }
        }
        i += 1;
    }
    assert(d.take(i - start) =~= d);
    Some(v)
}

/// How a log entry stands to the working copy.
#[derive(PartialEq, Eq, Structural, Clone, Copy, Debug)]
pub enum RevisionMark {
    /// The revision the working copy is at.
    WorkingCopy,
    /// A revision newer than the working copy, only on the server.
    Remote,
    /// An older revision, or one whose number cannot be compared.
    Plain,
}

/// How revision `rev` stands to the working copy at revision `wc`: both numbers
/// are read as `u64` (the revision's after its leading `r`s); equal numbers mark the
/// working copy, a greater one a remote revision.
pub open spec fn revision_mark_of(rev: Seq<char>, wc: Option<Seq<char>>) -> RevisionMark {
    let r = parsed_u64(revision_number_of(rev));
    let w = match wc {
        Some(t) => parsed_u64(t),
        None => None,
    };
    if r is Some && r == w {
        RevisionMark::WorkingCopy
    } else if r is Some && w is Some && r->0 > w->0 {
        RevisionMark::Remote
    } else {
        RevisionMark::Plain
    }
}

/// The Revisions row for `r`: revision, author and date, and the message when it
/// is not empty, separated by ` | `.
pub open spec fn revision_label(r: RevisionView) -> Seq<char> {
    if r.message.len() == 0 {
        r.revision + " | "@ + r.author + " | "@ + r.date
    } else {
        r.revision + " | "@ + r.author + " | "@ + r.date + " | "@ + r.message
    }
}

/// The Revisions row for `r` with its mark: ` [working copy]` or ` [remote]` after
/// the label.
pub open spec fn revision_row(r: RevisionView, mark: RevisionMark) -> Seq<char> {
    match mark {
        RevisionMark::WorkingCopy => revision_label(r) + " [working copy]"@,
        RevisionMark::Remote => revision_label(r) + " [remote]"@,
        RevisionMark::Plain => revision_label(r),
    }
}

/// The text of a row of the Revisions panel for `rev`, given the working copy's
/// revision, and how the row is marked.
pub fn revision_row_text(rev: &SvnRevision, working_copy_revision: &Option<String>) -> (res: (
    String,
    RevisionMark,
))
    ensures
        res.1 == revision_mark_of(
            rev.revision@,
            match working_copy_revision {
                Some(t) => Some(t@),
                None => None,
            },
        ),
        res.0@ == revision_row(rev@, res.1),
{
    let rc = chars_of(rev.revision.as_str());
    let k = leading_count(&rc, 'r');
    let num = crate::text::copy_range(&rc, k, rc.len());
    proof {
        assert(rc@.subrange(k as int, rc@.len() as int) =~= rc@.skip(k as int));
    }
    let r = parse_u64(&num);
    let w = match working_copy_revision {
        Some(t) => parse_u64(&chars_of(t.as_str())),
        None => None,
    };
    let mark = match (r, w) {
        (Some(a), Some(b)) => if a == b {
            RevisionMark::WorkingCopy
        } else if a > b {
            RevisionMark::Remote
        } else {
            RevisionMark::Plain
        },
        _ => RevisionMark::Plain,
    };
    let mut out: Vec<char> = Vec::new();
    push_text(&mut out, &rc);
    push_text(&mut out, &chars_of(" | "));
    push_text(&mut out, &chars_of(rev.author.as_str()));
    push_text(&mut out, &chars_of(" | "));
    push_text(&mut out, &chars_of(rev.date.as_str()));
    if !rev.message.as_str().is_empty() {
        push_text(&mut out, &chars_of(" | "));
        push_text(&mut out, &chars_of(rev.message.as_str()));
    }
    match mark {
        RevisionMark::WorkingCopy => push_text(&mut out, &chars_of(" [working copy]")),
        RevisionMark::Remote => push_text(&mut out, &chars_of(" [remote]")),
        RevisionMark::Plain => {},
    }
    (string_of(&out), mark)
}

/// Two spaces per level of nesting.
pub open spec fn indent(depth: nat) -> Seq<char>
    decreases depth,
{
    if depth == 0 {
        Seq::empty()
    } else {
        indent((depth - 1) as nat) + "  "@
    }
}

/// The Files row for `row`: a directory as its indent, `▶` (collapsed) or `▼`, its
/// name and a `/`; a file as its indent, `[✓]` when marked or `[ ]`, its status and
/// its name.
pub open spec fn tree_row_label(row: NodeView, marked: Set<Seq<char>>) -> Seq<char> {
    match row {
        NodeView::Dir { name, depth, collapsed, .. } => indent(depth) + (if collapsed {
            "▶"@
        } else {
            "▼"@
        }) + " "@ + name + "/"@,
        NodeView::File { status, path, name, depth } => indent(depth) + "["@ + (if marked.contains(
            path,
        ) {
            "✓"@
        } else {
            " "@
        }) + "] "@ + status + " "@ + name,
    }
}

/// Appends `depth` levels of indent to `out`.
fn push_indent(out: &mut Vec<char>, depth: usize)
    ensures
        final(out)@ == old(out)@ + indent(depth as nat),
{
    let mut i: usize = 0;
    assert(old(out)@ + indent(0) =~= old(out)@);
    while i < depth
        invariant
            i <= depth,
            out@ == old(out)@ + indent(i as nat),
        decreases depth - i,
    {
        push_text(out, &chars_of("  "));
        proof {
            assert(indent((i + 1) as nat) == indent(i as nat) + "  "@);
            assert(out@ =~= old(out)@ + indent((i + 1) as nat));
        }
        i += 1;
    }
}

/// The text of a row of the Files panel (see `tree_row_label`).
pub fn tree_row_text(node: &FileTreeNode, marked: &PathSet) -> (res: String)
    ensures
        res@ == tree_row_label(node@, marked@),
{
    let mut out: Vec<char> = Vec::new();
    match node {
        FileTreeNode::Dir { name, depth, collapsed, .. } => {
            push_indent(&mut out, *depth);
            if *collapsed {
                push_text(&mut out, &chars_of("▶"));
            } else {
                push_text(&mut out, &chars_of("▼"));
            }
            push_text(&mut out, &chars_of(" "));
            push_text(&mut out, &chars_of(name.as_str()));
            push_text(&mut out, &chars_of("/"));
        },
        FileTreeNode::File { status, path, name, depth } => {
            push_indent(&mut out, *depth);
            push_text(&mut out, &chars_of("["));
            if marked.contains(path.as_str()) {
                push_text(&mut out, &chars_of("✓"));
            } else {
                push_text(&mut out, &chars_of(" "));
            }
            push_text(&mut out, &chars_of("] "));
            push_text(&mut out, &chars_of(status.as_str()));
            push_text(&mut out, &chars_of(" "));
            push_text(&mut out, &chars_of(name.as_str()));
        },
    }
    string_of(&out)
}

/// The colour a file row is drawn in, by its status.
#[derive(PartialEq, Eq, Structural, Clone, Copy, Debug)]
pub enum StatusColor {
    Blue,
    Green,
    Red,
    White,
}

/// Modified files are blue, added ones green, deleted ones red, the rest white.
pub open spec fn status_color_of(status: Seq<char>) -> StatusColor {
    if status == "M"@ {
        StatusColor::Blue
    } else if status == "A"@ {
        StatusColor::Green
    } else if status == "D"@ {
        StatusColor::Red
    } else {
        StatusColor::White
    }
}

/// The colour of a file row with status `status` (see `status_color_of`).
pub fn status_color(status: &str) -> (res: StatusColor)
    ensures
        res == status_color_of(status@),
{
    let s = chars_of(status);
    if crate::text::chars_eq(&s, &chars_of("M")) {
        StatusColor::Blue
    } else if crate::text::chars_eq(&s, &chars_of("A")) {
        StatusColor::Green
    } else if crate::text::chars_eq(&s, &chars_of("D")) {
        StatusColor::Red
    } else {
        StatusColor::White
    }
}

/// The line at the top of the commit popup that says what will be committed.
pub open spec fn scope_hint(marked: nat, changed: nat) -> Seq<char> {
    if marked == 0 {
        "Committing all "@ + decimal(changed) + " changed file(s)"@
    } else {
        "Committing "@ + decimal(marked) + " selected file(s)"@
    }
}

/// How many of the changed files to show by name in the delete prompt.
pub const DELETE_PROMPT_LIMIT: usize = 8;

/// The lines of the delete prompt for `targets`: a count, then the first eight
/// paths indented, then how many more there are, and the keys that answer it.
pub open spec fn delete_prompt(targets: Seq<Seq<char>>) -> Seq<Seq<char>> {
    let n = targets.len();
    let shown = if n > 8 {
        8
    } else {
        n
    };
    seq!["About to delete "@ + decimal(n) + " item(s):"@, Seq::empty()] + targets.take(
        shown as int,
    ).map_values(|p: Seq<char>| "  "@ + p) + (if n > 8 {
        seq!["  … and "@ + decimal((n - 8) as nat) + " more"@]
    } else {
        Seq::empty()
    }) + seq![Seq::empty(), "[y] confirm  [n / Esc] cancel"@]
}

/// The lines of the ignore prompt for `target` (`<unknown>` when there is none).
pub open spec fn ignore_prompt(target: Option<Seq<char>>) -> Seq<Seq<char>> {
    seq![
        "Add to ignore list?"@,
        Seq::empty(),
        "  "@ + match target {
            Some(t) => t,
            None => "<unknown>"@,
        },
        Seq::empty(),
        "[y] confirm  [n / Esc] cancel"@,
    ]
}

/// `n` copies of `c`.
pub open spec fn repeat_char(c: char, n: nat) -> Seq<char> {
    Seq::new(n, |i: int| c)
}

impl App {
    /// The line at the top of the commit popup (see `scope_hint`).
    pub fn commit_scope_hint(&self) -> (res: String)
        ensures
            res@ == scope_hint(self.selected_files@.len(), self.file_list@.len()),
    {
        let marked = self.selected_files.len();
        let mut out: Vec<char> = Vec::new();
        if marked == 0 {
            push_text(&mut out, &chars_of("Committing all "));
            push_text(&mut out, &decimal_chars(self.file_list.len()));
            push_text(&mut out, &chars_of(" changed file(s)"));
        } else {
            push_text(&mut out, &chars_of("Committing "));
            push_text(&mut out, &decimal_chars(marked));
            push_text(&mut out, &chars_of(" selected file(s)"));
        }
        string_of(&out)
    }

    /// The lines of the delete prompt for the pending targets (see `delete_prompt`).
    pub fn delete_prompt_lines(&self) -> (res: Vec<String>)
        ensures
            crate::text::string_views(res@) == delete_prompt(
                crate::text::string_views(self.delete_targets@),
            ),
    {
        let n = self.delete_targets.len();
        let ghost ts = crate::text::string_views(self.delete_targets@);
        let mut res: Vec<String> = Vec::new();
        let mut head: Vec<char> = Vec::new();
        push_text(&mut head, &chars_of("About to delete "));
        push_text(&mut head, &decimal_chars(n));
        push_text(&mut head, &chars_of(" item(s):"));
        res.push(string_of(&head));
        res.push(String::new());
        proof {
            reveal_strlit("");
        }
        assert(crate::text::string_views(res@) =~= seq![
            "About to delete "@ + decimal(n as nat) + " item(s):"@,
            Seq::<char>::empty(),
        ]);
        let shown = if n > DELETE_PROMPT_LIMIT {
            DELETE_PROMPT_LIMIT
        } else {
            n
        };
        let ghost base = crate::text::string_views(res@);
        let ghost paths = ts.take(shown as int).map_values(|p: Seq<char>| "  "@ + p);
        let mut i: usize = 0;
        while i < shown
            invariant
                i <= shown <= n,
                n == self.delete_targets@.len(),
                ts == crate::text::string_views(self.delete_targets@),
                paths == ts.take(shown as int).map_values(|p: Seq<char>| "  "@ + p),
                crate::text::string_views(res@) == base + paths.take(i as int),
            decreases shown - i,
        {
            let mut line: Vec<char> = Vec::new();
            push_text(&mut line, &chars_of("  "));
            push_text(&mut line, &chars_of(self.delete_targets[i].as_str()));
            let ghost before = crate::text::string_views(res@);
            res.push(string_of(&line));
            assert(ts[i as int] == self.delete_targets@[i as int]@);
            assert(crate::text::string_views(res@) =~= before.push(line@));
            assert(paths.take(i + 1) =~= paths.take(i as int).push(paths[i as int]));
            i += 1;
        }
        assert(paths.take(i as int) =~= paths);
        let ghost mid = crate::text::string_views(res@);
        let ghost tail: Seq<Seq<char>> = if n > 8 {
            seq!["  … and "@ + decimal((n - 8) as nat) + " more"@]
        } else {
            Seq::empty()
        };
        if n > DELETE_PROMPT_LIMIT {
            let mut more: Vec<char> = Vec::new();
            push_text(&mut more, &chars_of("  … and "));
            push_text(&mut more, &decimal_chars(n - DELETE_PROMPT_LIMIT));
            push_text(&mut more, &chars_of(" more"));
            res.push(string_of(&more));
            assert(crate::text::string_views(res@) =~= mid + tail);
        } else {
            assert(crate::text::string_views(res@) =~= mid + tail);
        }
        let ghost mid2 = crate::text::string_views(res@);
        res.push(String::new());
        res.push(String::from_str("[y] confirm  [n / Esc] cancel"));
        assert(crate::text::string_views(res@) =~= mid2 + seq![
            Seq::<char>::empty(),
            "[y] confirm  [n / Esc] cancel"@,
        ]);
        assert(crate::text::string_views(res@) =~= delete_prompt(ts));
        res
    }

    /// The lines of the ignore prompt for the pending target (see `ignore_prompt`).
    pub fn ignore_prompt_lines(&self) -> (res: Vec<String>)
        ensures
            crate::text::string_views(res@) == ignore_prompt(
                match self.ignore_target {
                    Some(t) => Some(t@),
                    None => None,
                },
            ),
    {
        let mut res: Vec<String> = Vec::new();
        res.push(String::from_str("Add to ignore list?"));
        res.push(String::new());
        let mut line: Vec<char> = Vec::new();
        push_text(&mut line, &chars_of("  "));
        match &self.ignore_target {
            Some(t) => push_text(&mut line, &chars_of(t.as_str())),
            None => push_text(&mut line, &chars_of("<unknown>")),
        }
        res.push(string_of(&line));
        res.push(String::new());
        res.push(String::from_str("[y] confirm  [n / Esc] cancel"));
        proof {
            reveal_strlit("");
        }
        assert(crate::text::string_views(res@) =~= ignore_prompt(
            match self.ignore_target {
                Some(t) => Some(t@),
                None => None,
            },
        ));
        res
    }

    /// The password as shown in the commit popup: one `*` per byte of it.
    pub fn masked_password(&self) -> (res: String)
        requires
            byte_len(self.commit_password@) <= usize::MAX,
        ensures
            res@ == repeat_char('*', byte_len(self.commit_password@)),
    {
        let n = self.commit_password.as_str().len();
        proof {
            lemma_byte_len_encode(self.commit_password@);
        }
        let mut out: Vec<char> = Vec::new();
        let mut i: usize = 0;
        while i < n
            invariant
                i <= n,
                out@ == repeat_char('*', i as nat),
            decreases n - i,
        {
            out.push('*');
            assert(out@ =~= repeat_char('*', (i + 1) as nat));
            i += 1;
        }
        string_of(&out)
    }
}

/// Whether the Files panel is drawn as focused: while it has the focus, and while
/// the commit, delete or ignore popup that acts on its files is open.
pub open spec fn files_panel_lit(w: ActiveWindow) -> bool {
    w == ActiveWindow::ChangedFiles || w == ActiveWindow::Commit || w
        == ActiveWindow::ConfirmDelete || w == ActiveWindow::ConfirmIgnore
}

/// Whether the Files panel is drawn as focused (see `files_panel_lit`).
pub fn files_panel_highlighted(w: ActiveWindow) -> (res: bool)
    ensures
        res == files_panel_lit(w),
{
    w == ActiveWindow::ChangedFiles || w == ActiveWindow::Commit || w == ActiveWindow::ConfirmDelete
        || w == ActiveWindow::ConfirmIgnore
}

impl App {
    /// The lines of the commit message as the commit popup shows them: none when
    /// the message is blank (the popup then says it is required), otherwise the
    /// message split at each newline.
    pub fn commit_message_rows(&self) -> (res: Option<Vec<String>>)
        ensures
            crate::text::trim(self.commit_message@).len() == 0 ==> res is None,
            crate::text::trim(self.commit_message@).len() > 0 ==> (res matches Some(v)
                && crate::text::string_views(v@) == crate::text::split_str(
                self.commit_message@,
                "\n"@,
            )),
    {
        let cs = chars_of(self.commit_message.as_str());
        let t = crate::text::trim_range(&cs, 0, cs.len());
        proof {
            assert(cs@.subrange(0, cs@.len() as int) =~= cs@);
        }
        if t.len() == 0 {
            return None;
        }
        let nl = chars_of("\n");
        proof {
            reveal_strlit("\n");
        }
        let parts = crate::text::split_on_str(&cs, &nl);
        let ghost want = crate::text::split_str(self.commit_message@, "\n"@);
        let mut res: Vec<String> = Vec::new();
        let mut i: usize = 0;
        while i < parts.len()
            invariant
                i <= parts.len(),
                crate::text::char_rows(parts@) == want,
                crate::text::string_views(res@) == want.take(i as int),
            decreases parts.len() - i,
        {
            let ghost before = crate::text::string_views(res@);
            res.push(string_of(&parts[i]));
            assert(want[i as int] == parts@[i as int]@);
            assert(crate::text::string_views(res@) =~= before.push(want[i as int]));
            assert(want.take(i + 1) =~= want.take(i as int).push(want[i as int]));
            i += 1;
        }
        assert(want.take(i as int) =~= want);
        Some(res)
    }
}

} // verus!
