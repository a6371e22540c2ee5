use vstd::prelude::*;

use crate::app::App;
use crate::text::{
    byte_len, byte_len_of, char_index, char_index_at, char_width, chars_of, find_char,
    is_boundary, len_utf8, lemma_byte_len_take_increasing, lemma_char_index, lemma_find_char,
    lemma_find_char_is, string_of,
};

verus! {

/// The number of times `c` occurs in `s`.
pub open spec fn count_char(s: Seq<char>, c: char) -> nat
    decreases s.len(),
{
    if s.len() == 0 {
        0
    } else {
        count_char(s.drop_last(), c) + if s.last() == c {
            1nat
        } else {
            0nat
        }
    }
}

/// The index just after the last `\n` of `s` (0 when there is none): where the
/// last line of `s` starts.
pub open spec fn line_start(s: Seq<char>) -> nat
    decreases s.len(),
{
    if s.len() == 0 {
        0
    } else if s.last() == '\n' {
        s.len()
    } else {
        line_start(s.drop_last())
    }
}

/// `line_start` lies within `s`, and no `\n` follows it.
pub proof fn lemma_line_start(s: Seq<char>)
    ensures
        line_start(s) <= s.len(),
        line_start(s) > 0 ==> s[line_start(s) - 1] == '\n',
        forall|j: int| line_start(s) <= j < s.len() ==> s[j] != '\n',
        line_start(s) == 0 <==> count_char(s, '\n') == 0,
    decreases s.len(),
{
    if s.len() > 0 {
        lemma_line_start(s.drop_last());
        assert forall|j: int| line_start(s) <= j < s.len() implies s[j] != '\n' by {
            if j < s.len() - 1 {
                assert(s.drop_last()[j] == s[j]);
            }
        }
        if line_start(s) > 0 && s.last() != '\n' {
            assert(s.drop_last()[line_start(s) - 1] == s[line_start(s) - 1]);
        }
        if s.last() == '\n' {
            assert(count_char(s, '\n') > 0);
        }
    }
}

/// The smaller of `a` and `b`.
pub open spec fn min_nat(a: int, b: int) -> int {
    if a <= b {
        a
    } else {
        b
    }
}

/// Where the cursor at character `k` of `msg` lands when it moves up a line,
/// keeping its column when the line above is long enough.
pub open spec fn cursor_up(msg: Seq<char>, k: int) -> int {
    let ls = line_start(msg.take(k)) as int;
    if ls == 0 {
        0
    } else {
        let ps = line_start(msg.take(ls - 1)) as int;
        ps + min_nat(k - ls, ls - 1 - ps)
    }
}

/// Where the cursor at character `k` of `msg` lands when it moves down a line,
/// keeping its column when the line below is long enough; on the last line it
/// moves to the end of the line.
pub open spec fn cursor_down(msg: Seq<char>, k: int) -> int {
    let nl = k + find_char(msg.skip(k), '\n');
    if nl >= msg.len() {
        msg.len() as int
    } else {
        let ns = nl + 1;
        ns + min_nat(k - line_start(msg.take(k)), find_char(msg.skip(ns), '\n'))
    }
}

/// The start of the line that holds character `k` of `cs`.
fn line_start_at(cs: &[char], k: usize) -> (res: usize)
    requires
        k <= cs.len(),
    ensures
        res == line_start(cs@.take(k as int)),
{
    let mut j = k;
    while j > 0 && cs[j - 1] != '\n'
        invariant
            j <= k <= cs.len(),
            line_start(cs@.take(k as int)) == line_start(cs@.take(j as int)),
        decreases j,
    {
        assert(cs@.take(j as int).drop_last() =~= cs@.take(j - 1));
        j -= 1;
    }
    proof {
        if j > 0 {
            assert(cs@.take(j as int).last() == '\n');
        }
    }
    j
}

/// The index of the first `\n` at or after `k` in `cs`, or `cs.len()`.
fn newline_from(cs: &[char], k: usize) -> (res: usize)
    requires
        k <= cs.len(),
    ensures
        res == k + find_char(cs@.skip(k as int), '\n'),
        k <= res <= cs.len(),
{
    let mut j = k;
    while j < cs.len() && cs[j] != '\n'
        invariant
            k <= j <= cs.len(),
            forall|q: int| k <= q < j ==> cs@[q] != '\n',
        decreases cs.len() - j,
    {
        j += 1;
    }
    proof {
        let rest = cs@.skip(k as int);
        assert forall|q: int| 0 <= q < j - k implies rest[q] != '\n' by {
            assert(rest[q] == cs@[q + k]);
        }
        if j < cs.len() {
            assert(rest[j - k] == cs@[j as int]);
        }
        lemma_find_char_is(rest, '\n', j - k);
    }
    j
}

impl App {
    /// The commit message's UTF-8 length fits in a `usize` (as it must in memory).
    pub open spec fn message_fits(&self) -> bool {
        byte_len(self.commit_message@) <= usize::MAX
    }

    /// The commit cursor sits between two characters of the message.
    pub open spec fn cursor_ok(&self) -> bool {
        is_boundary(self.commit_message@, self.commit_message_cursor as int)
    }

    /// The number of characters before the commit cursor.
    pub open spec fn cursor_chars(&self) -> int {
        char_index(self.commit_message@, self.commit_message_cursor as int)
    }

    /// `next` is this state with `c` typed at the cursor: the character is inserted
    /// there and the cursor moves past it.
    pub open spec fn char_inserted(self, c: char, next: App) -> bool {
        &&& next.commit_message@ == self.commit_message@.take(self.cursor_chars()) + seq![c]
            + self.commit_message@.skip(self.cursor_chars())
        &&& next.commit_message_cursor == self.commit_message_cursor + char_width(c)
        &&& next.cursor_ok()
        &&& next.cursor_chars() == self.cursor_chars() + 1
        &&& next == (App {
            commit_message: next.commit_message,
            commit_message_cursor: next.commit_message_cursor,
            ..self
        })
    }

    /// `next` is this state after a backspace: at the start of the message nothing
    /// changes; otherwise the character before the cursor is removed and the
    /// cursor moves back over it.
    pub open spec fn backspaced(self, next: App) -> bool {
        if self.commit_message_cursor == 0 {
            next == self
        } else {
            let k = self.cursor_chars();
            &&& next.commit_message@ == self.commit_message@.take(k - 1)
                + self.commit_message@.skip(k)
            &&& next.commit_message_cursor == byte_len(self.commit_message@.take(k - 1))
            &&& next.cursor_ok()
            &&& next.cursor_chars() == k - 1
            &&& next == (App {
                commit_message: next.commit_message,
                commit_message_cursor: next.commit_message_cursor,
                ..self
            })
        }
    }

    /// `next` is this state with the cursor one character to the left (unchanged
    /// at the start of the message).
    pub open spec fn cursor_moved_left(self, next: App) -> bool {
        if self.commit_message_cursor == 0 {
            next == self
        } else {
            &&& next.commit_message_cursor == byte_len(
                self.commit_message@.take(self.cursor_chars() - 1),
            )
            &&& next.cursor_ok()
            &&& next.cursor_chars() == self.cursor_chars() - 1
            &&& next == (App { commit_message_cursor: next.commit_message_cursor, ..self })
        }
    }

    /// `next` is this state with the cursor one character to the right (unchanged
    /// at the end of the message).
    pub open spec fn cursor_moved_right(self, next: App) -> bool {
        if self.commit_message_cursor >= byte_len(self.commit_message@) {
            next == self
        } else {
            &&& next.commit_message_cursor == byte_len(
                self.commit_message@.take(self.cursor_chars() + 1),
            )
            &&& next.cursor_ok()
            &&& next.cursor_chars() == self.cursor_chars() + 1
            &&& next == (App { commit_message_cursor: next.commit_message_cursor, ..self })
        }
    }

    /// The message as characters, and the cursor as a character count.
    fn message_chars(&self) -> (res: (Vec<char>, usize))
        requires
            self.cursor_ok(),
        ensures
            res.0@ == self.commit_message@,
            res.1 == self.cursor_chars(),
            res.1 <= res.0@.len(),
            byte_len(res.0@.take(res.1 as int)) == self.commit_message_cursor,
    {
        let cs = chars_of(self.commit_message.as_str());
        match char_index_at(&cs, self.commit_message_cursor) {
            Some(k) => (cs, k),
            None => {
                assert(false);
                (cs, 0)
            },
        }
    }

    /// Returns the (line_index, column) of the commit message cursor.
    /// Both values are zero-based and measured in characters (not bytes).
    pub fn commit_cursor_line_col(&self) -> (res: (usize, usize))
        requires
            self.cursor_ok(),
        ensures
            res.0 == count_char(self.commit_message@.take(self.cursor_chars()), '\n'),
            res.1 == self.cursor_chars() - line_start(
                self.commit_message@.take(self.cursor_chars()),
            ),
    {
        let (cs, k) = self.message_chars();
        let mut line: usize = 0;
        let mut i: usize = 0;
        assert(cs@.take(0) =~= Seq::<char>::empty());
        while i < k
            invariant
                i <= k <= cs.len(),
                line == count_char(cs@.take(i as int), '\n'),
                line <= i,
            decreases k - i,
        {
            assert(cs@.take(i + 1).drop_last() =~= cs@.take(i as int));
            if cs[i] == '\n' {
                line += 1;
            }
            i += 1;
        }
        let start = line_start_at(&cs, k);
        proof {
            lemma_line_start(cs@.take(k as int));
        }
        (line, k - start)
    }

    /// Insert `c` at the current cursor position and advance the cursor past it.
    pub fn commit_message_insert_char(&mut self, c: char)
        requires
            old(self).cursor_ok(),
            byte_len(old(self).commit_message@) + char_width(c) <= usize::MAX,
        ensures
            old(self).char_inserted(c, *final(self)),
    {
        let (cs, k) = self.message_chars();
        let ghost msg = cs@;
        proof {
            if k < cs.len() {
                lemma_byte_len_take_increasing(msg, k as int, msg.len() as int);
            }
            assert(msg.take(msg.len() as int) =~= msg);
        }
        let mut out: Vec<char> = Vec::new();
        let mut i: usize = 0;
        while i < k
            invariant
                i <= k <= cs.len(),
                out@ == msg.take(i as int),
                msg == cs@,
            decreases k - i,
        {
            out.push(cs[i]);
            i += 1;
        }
        out.push(c);
        let mut i = k;
        while i < cs.len()
            invariant
                k <= i <= cs.len(),
                out@ == msg.take(k as int) + seq![c] + msg.subrange(k as int, i as int),
                msg == cs@,
            decreases cs.len() - i,
        {
            out.push(cs[i]);
            i += 1;
        }
        assert(msg.subrange(k as int, cs.len() as int) =~= msg.skip(k as int));
        self.commit_message = string_of(&out);
        self.commit_message_cursor = self.commit_message_cursor + len_utf8(c);
        proof {
            let nm = self.commit_message@;
            assert(nm.take(k + 1) =~= msg.take(k as int).push(c));
            assert(nm.take(k + 1).drop_last() =~= msg.take(k as int));
            lemma_char_index(nm, self.commit_message_cursor as int, k + 1);
        }
    }

    /// Delete the character immediately before the cursor (backspace); nothing
    /// happens at the start of the message.
    pub fn commit_message_delete_before_cursor(&mut self)
        requires
            old(self).commit_message_cursor == 0 || old(self).cursor_ok(),
        ensures
            old(self).backspaced(*final(self)),
    {
        if self.commit_message_cursor == 0 {
            return;
        }
        let (cs, k) = self.message_chars();
        let ghost msg = cs@;
        assert(k > 0) by {
            if k == 0 {
                assert(msg.take(0) =~= Seq::<char>::empty());
            }
        }
        assert(msg.take(k as int).drop_last() =~= msg.take(k - 1));
        let w = len_utf8(cs[k - 1]);
        let mut out: Vec<char> = Vec::new();
        let mut i: usize = 0;
        while i < k - 1
            invariant
                0 < k <= cs.len(),
                i <= k - 1,
                out@ == msg.take(i as int),
                msg == cs@,
            decreases k - 1 - i,
        {
            out.push(cs[i]);
            i += 1;
        }
        let mut i = k;
        while i < cs.len()
            invariant
                0 < k <= i <= cs.len(),
                out@ == msg.take(k - 1) + msg.subrange(k as int, i as int),
                msg == cs@,
            decreases cs.len() - i,
        {
            out.push(cs[i]);
            i += 1;
        }
        assert(msg.subrange(k as int, cs.len() as int) =~= msg.skip(k as int));
        self.commit_message = string_of(&out);
        self.commit_message_cursor = self.commit_message_cursor - w;
        proof {
            let nm = self.commit_message@;
            assert(nm.take(k - 1) =~= msg.take(k - 1));
            lemma_char_index(nm, self.commit_message_cursor as int, k - 1);
        }
    }

    /// Move the commit message cursor one character to the left; nothing happens at
    /// the start of the message.
    pub fn commit_message_move_left(&mut self)
        requires
            old(self).commit_message_cursor == 0 || old(self).cursor_ok(),
        ensures
            old(self).cursor_moved_left(*final(self)),
    {
        if self.commit_message_cursor == 0 {
            return;
        }
        let (cs, k) = self.message_chars();
        let ghost msg = cs@;
        assert(k > 0) by {
            if k == 0 {
                assert(msg.take(0) =~= Seq::<char>::empty());
            }
        }
        assert(msg.take(k as int).drop_last() =~= msg.take(k - 1));
        let w = len_utf8(cs[k - 1]);
        self.commit_message_cursor = self.commit_message_cursor - w;
        proof {
            lemma_char_index(msg, self.commit_message_cursor as int, k - 1);
        }
    }

    /// Move the commit message cursor one character to the right; nothing happens
    /// at (or past) the end of the message.
    pub fn commit_message_move_right(&mut self)
        requires
            old(self).message_fits(),
            old(self).commit_message_cursor >= byte_len(old(self).commit_message@)
                || old(self).cursor_ok(),
        ensures
            old(self).cursor_moved_right(*final(self)),
    {
        let cs = chars_of(self.commit_message.as_str());
        let ghost msg = cs@;
        assert(msg.take(msg.len() as int) =~= msg);
        match char_index_at(&cs, self.commit_message_cursor) {
            None => {
                return;
            },
            Some(k) => {
                if k == cs.len() {
                    return;
                }
                proof {
                    lemma_byte_len_take_increasing(msg, k as int, msg.len() as int);
                    if k + 1 < msg.len() {
                        lemma_byte_len_take_increasing(msg, k + 1, msg.len() as int);
                    }
                }
                assert(msg.take(k + 1).drop_last() =~= msg.take(k as int));
                let w = len_utf8(cs[k]);
                self.commit_message_cursor = self.commit_message_cursor + w;
                proof {
                    lemma_char_index(msg, self.commit_message_cursor as int, k + 1);
                }
            },
        }
    }

    /// Moves the cursor to character `k` of the message `cs`.
    fn set_cursor_chars(&mut self, cs: &Vec<char>, k: usize)
        requires
            cs@ == old(self).commit_message@,
            k <= cs.len(),
            old(self).message_fits(),
        ensures
            final(self).commit_message_cursor == byte_len(cs@.take(k as int)),
            final(self).cursor_ok(),
            final(self).cursor_chars() == k,
            *final(self) == (App {
                commit_message_cursor: final(self).commit_message_cursor,
                ..*old(self)
            }),
    {
        self.commit_message_cursor = byte_len_of(cs, k);
        proof {
            lemma_char_index(cs@, self.commit_message_cursor as int, k as int);
        }
    }

    /// Move the commit message cursor to the start of the current line.
    pub fn commit_message_move_to_line_start(&mut self)
        requires
            old(self).cursor_ok(),
            old(self).message_fits(),
        ensures
            final(self).cursor_chars() == line_start(
                old(self).commit_message@.take(old(self).cursor_chars()),
            ),
            final(self).commit_message_cursor == byte_len(
                old(self).commit_message@.take(final(self).cursor_chars()),
            ),
            final(self).cursor_ok(),
            *final(self) == (App {
                commit_message_cursor: final(self).commit_message_cursor,
                ..*old(self)
            }),
    {
        let (cs, k) = self.message_chars();
        let start = line_start_at(&cs, k);
        proof {
            lemma_line_start(cs@.take(k as int));
        }
        self.set_cursor_chars(&cs, start);
    }

    /// Move the commit message cursor to the end of the current line.
    pub fn commit_message_move_to_line_end(&mut self)
        requires
            old(self).cursor_ok(),
            old(self).message_fits(),
        ensures
            final(self).cursor_chars() == old(self).cursor_chars() + find_char(
                old(self).commit_message@.skip(old(self).cursor_chars()),
                '\n',
            ),
            final(self).commit_message_cursor == byte_len(
                old(self).commit_message@.take(final(self).cursor_chars()),
            ),
            final(self).cursor_ok(),
            *final(self) == (App {
                commit_message_cursor: final(self).commit_message_cursor,
                ..*old(self)
            }),
    {
        let (cs, k) = self.message_chars();
        let end = newline_from(&cs, k);
        self.set_cursor_chars(&cs, end);
    }

    /// Move the commit message cursor up one line, preserving the column where the
    /// line above is long enough; on the first line, move to its start.
    pub fn commit_message_move_up(&mut self)
        requires
            old(self).cursor_ok(),
            old(self).message_fits(),
        ensures
            final(self).cursor_chars() == cursor_up(
                old(self).commit_message@,
                old(self).cursor_chars(),
            ),
            final(self).commit_message_cursor == byte_len(
                old(self).commit_message@.take(final(self).cursor_chars()),
            ),
            final(self).cursor_ok(),
            *final(self) == (App {
                commit_message_cursor: final(self).commit_message_cursor,
                ..*old(self)
            }),
    {
        let (cs, k) = self.message_chars();
        let ls = line_start_at(&cs, k);
        proof {
            lemma_line_start(cs@.take(k as int));
        }
        if ls == 0 {
            self.set_cursor_chars(&cs, 0);
            return;
        }
        let ps = line_start_at(&cs, ls - 1);
        proof {
            lemma_line_start(cs@.take(ls - 1));
        }
        let col = k - ls;
        let plen = ls - 1 - ps;
        let target = if col <= plen {
            ps + col
        } else {
            ps + plen
        };
        self.set_cursor_chars(&cs, target);
    }

    /// Move the commit message cursor down one line, preserving the column where the
    /// line below is long enough; on the last line, move to its end.
    pub fn commit_message_move_down(&mut self)
        requires
            old(self).cursor_ok(),
            old(self).message_fits(),
        ensures
            final(self).cursor_chars() == cursor_down(
                old(self).commit_message@,
                old(self).cursor_chars(),
            ),
            final(self).commit_message_cursor == byte_len(
                old(self).commit_message@.take(final(self).cursor_chars()),
            ),
            final(self).cursor_ok(),
            *final(self) == (App {
                commit_message_cursor: final(self).commit_message_cursor,
                ..*old(self)
            }),
    {
        let (cs, k) = self.message_chars();
        let nl = newline_from(&cs, k);
        if nl >= cs.len() {
            self.set_cursor_chars(&cs, cs.len());
            return;
        }
        let ns = nl + 1;
        let next_end = newline_from(&cs, ns);
        let ls = line_start_at(&cs, k);
        proof {
            lemma_line_start(cs@.take(k as int));
        }
        let col = k - ls;
        let nlen = next_end - ns;
        let target = if col <= nlen {
            ns + col
        } else {
            ns + nlen
        };
        self.set_cursor_chars(&cs, target);
    }
}

}
