use vstd::prelude::*;

use crate::app::App;
use crate::text::{char_rows, chars_of, lines, split_lines, string_of};
use crate::types::{diff_views, DiffLine, DiffLineView, LineColor};

verus! {

/// Whether `l` starts with `c` three times over.
pub open spec fn starts_with_three(l: Seq<char>, c: char) -> bool {
    l.len() >= 3 && l[0] == c && l[1] == c && l[2] == c
}

/// Whether `l` is a hunk header (starts with `@@`).
pub open spec fn is_hunk_header(l: Seq<char>) -> bool {
    l.len() >= 2 && l[0] == '@' && l[1] == '@'
}

/// The colour of a line of `svn diff` output: added lines green, removed lines red
/// (but not the `+++`/`---` file headers), hunk headers cyan, other lines plain.
pub open spec fn diff_color(l: Seq<char>) -> Option<LineColor> {
    if l.len() > 0 && l[0] == '+' && !starts_with_three(l, '+') {
        Some(LineColor::Green)
    } else if l.len() > 0 && l[0] == '-' && !starts_with_three(l, '-') {
        Some(LineColor::Red)
    } else if is_hunk_header(l) {
        Some(LineColor::Cyan)
    } else {
        None
    }
}

/// The styled line for one line of `svn diff` output.
pub open spec fn styled_line(l: Seq<char>) -> DiffLineView {
    DiffLineView { text: l, fg: diff_color(l), bold: false }
}

/// The styled lines for `ls`.
pub open spec fn styled_lines(ls: Seq<Seq<char>>) -> Seq<DiffLineView> {
    ls.map_values(|l: Seq<char>| styled_line(l))
}

/// The styled lines for the whole of `output`, one per line of it.
pub open spec fn styled_output(output: Seq<char>) -> Seq<DiffLineView> {
    styled_lines(lines(output))
}

/// The colour of one line of `svn diff` output (see `diff_color`).
fn line_color(l: &[char]) -> (res: Option<LineColor>)
    ensures
        res == diff_color(l@),
{
    let three = |c: char| -> (r: bool)
        ensures
            r == starts_with_three(l@, c),
        { l.len() >= 3 && l[0] == c && l[1] == c && l[2] == c };
    if l.len() > 0 && l[0] == '+' && !three('+') {
        Some(LineColor::Green)
    } else if l.len() > 0 && l[0] == '-' && !three('-') {
        Some(LineColor::Red)
    } else if l.len() >= 2 && l[0] == '@' && l[1] == '@' {
        Some(LineColor::Cyan)
    } else {
        None
    }
}

/// The first index at or after `start` holding a hunk header, or -1.
pub open spec fn next_hunk(lines: Seq<DiffLineView>, start: int) -> int
    decreases lines.len() - start,
{
    if start < 0 || start >= lines.len() {
        -1
    } else if is_hunk_header(lines[start].text) {
        start
    } else {
        next_hunk(lines, start + 1)
    }
}

/// The last index before `end` holding a hunk header, or -1.
pub open spec fn prev_hunk(lines: Seq<DiffLineView>, end: int) -> int
    decreases end,
{
    if end <= 0 || end > lines.len() {
        -1
    } else if is_hunk_header(lines[end - 1].text) {
        end - 1
    } else {
        prev_hunk(lines, end - 1)
    }
}

/// The 16-bit scroll offset that an index `n` becomes (`n as u16`).
pub open spec fn as_scroll(n: int) -> u16 {
    (n % 0x10000) as u16
}

impl App {
    /// Style each line of `svn diff` output for display (see `diff_color`).
    pub fn style_diff_output(output: &str) -> (res: Vec<DiffLine>)
        ensures
            diff_views(res@) == styled_output(output@),
    {
        let cs = chars_of(output);
        let ls = split_lines(&cs);
        let ghost want = lines(output@);
        let mut res: Vec<DiffLine> = Vec::new();
        let mut i: usize = 0;
        while i < ls.len()
            invariant
                i <= ls.len(),
                char_rows(ls@) == want,
                want == lines(output@),
                diff_views(res@) == styled_lines(want.take(i as int)),
            decreases ls.len() - i,
        {
            let fg = line_color(&ls[i]);
            let ghost before = res@;
            res.push(DiffLine { text: string_of(&ls[i]), fg, bold: false });
            assert(want[i as int] == ls@[i as int]@);
            assert(diff_views(res@) =~= diff_views(before).push(styled_line(want[i as int])));
            assert(want.take(i + 1) =~= want.take(i as int).push(want[i as int]));
            assert(styled_lines(want.take(i + 1)) =~= styled_lines(want.take(i as int)).push(
                styled_line(want[i as int]),
            ));
            i += 1;
        }
        assert(want.take(i as int) =~= want);
        res
    }

    /// The last line the diff can be scrolled to: the index of its last line, as
    /// the `u16` scroll offset holds it.
    pub open spec fn max_scroll(self) -> u16 {
        as_scroll(
            if self.current_diff@.len() == 0 {
                0
            } else {
                self.current_diff@.len() - 1
            },
        )
    }

    /// `next` is this state scrolled down one line, unless it is at `max_scroll`.
    pub open spec fn scrolled_down(self, next: App) -> bool {
        &&& next.diff_scroll == if self.diff_scroll < self.max_scroll() {
            (self.diff_scroll + 1) as u16
        } else {
            self.diff_scroll
        }
        &&& next == (App { diff_scroll: next.diff_scroll, ..self })
    }

    /// `next` is this state scrolled up one line, unless it is at the top.
    pub open spec fn scrolled_up(self, next: App) -> bool {
        &&& next.diff_scroll == if self.diff_scroll == 0 {
            0
        } else {
            (self.diff_scroll - 1) as u16
        }
        &&& next == (App { diff_scroll: next.diff_scroll, ..self })
    }

    /// Scroll the diff down one line, up to its last line.
    pub fn scroll_diff_down(&mut self)
        ensures
            old(self).scrolled_down(*final(self)),
    {
        let n = self.current_diff.len().saturating_sub(1);
        let max_scroll = (n % 0x10000) as u16;
        if self.diff_scroll < max_scroll {
            self.diff_scroll += 1;
        }
    }

    /// Scroll the diff up one line, stopping at the top.
    pub fn scroll_diff_up(&mut self)
        ensures
            old(self).scrolled_up(*final(self)),
    {
        self.diff_scroll = self.diff_scroll.saturating_sub(1);
    }

    /// Scroll to the next hunk header after the current top line, if there is one.
    pub fn scroll_diff_next_hunk(&mut self)
        requires
            old(self).diff_scroll as int + 1 <= old(self).current_diff@.len(),
        ensures
            ({
                let h = next_hunk(diff_views(old(self).current_diff@), old(self).diff_scroll + 1);
                final(self).diff_scroll == if h < 0 {
                    old(self).diff_scroll
                } else {
                    as_scroll(h)
                }
            }),
            *final(self) == (App { diff_scroll: final(self).diff_scroll, ..*old(self) }),
    {
        let ghost lv = diff_views(self.current_diff@);
        let start = self.diff_scroll as usize + 1;
        let mut i = start;
        while i < self.current_diff.len()
            invariant
                start <= i <= self.current_diff.len(),
                start == old(self).diff_scroll + 1,
                lv == diff_views(self.current_diff@),
                next_hunk(lv, start as int) == next_hunk(lv, i as int),
                *self == *old(self),
            decreases self.current_diff.len() - i,
        {
            let t = chars_of(self.current_diff[i].text.as_str());
            assert(t@ == lv[i as int].text);
            if t.len() >= 2 && t[0] == '@' && t[1] == '@' {
                assert(next_hunk(lv, i as int) == i);
                self.diff_scroll = (i % 0x10000) as u16;
                return;
            }
            i += 1;
        }
    }

    /// Scroll to the last hunk header before the current top line, if there is one.
    pub fn scroll_diff_prev_hunk(&mut self)
        requires
            old(self).diff_scroll as int <= old(self).current_diff@.len(),
        ensures
            ({
                let h = prev_hunk(diff_views(old(self).current_diff@), old(self).diff_scroll as int);
                final(self).diff_scroll == if h < 0 {
                    old(self).diff_scroll
                } else {
                    h as u16
                }
            }),
            *final(self) == (App { diff_scroll: final(self).diff_scroll, ..*old(self) }),
    {
        let ghost lv = diff_views(self.current_diff@);
        let end = self.diff_scroll as usize;
        let mut i = end;
        while i > 0
            invariant
                i <= end <= self.current_diff.len(),
                end == old(self).diff_scroll,
                lv == diff_views(self.current_diff@),
                prev_hunk(lv, end as int) == prev_hunk(lv, i as int),
                *self == *old(self),
            decreases i,
        {
            let t = chars_of(self.current_diff[i - 1].text.as_str());
            assert(t@ == lv[i - 1].text);
            if t.len() >= 2 && t[0] == '@' && t[1] == '@' {
                self.diff_scroll = (i - 1) as u16;
                return;
            }
            i -= 1;
        }
    }
}

}
