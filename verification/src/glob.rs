use vstd::prelude::*;

use crate::text::{basename, basename_chars, chars_eq, chars_of, contains_char, occurs_at};

verus! {

/// Glob matching of the whole of `path` against the whole of `pattern`:
/// `**` matches any run of characters, `*` any run that holds no `/`,
/// and every other pattern character matches itself.
pub open spec fn glob(path: Seq<char>, pattern: Seq<char>) -> bool
    decreases pattern.len(), 0nat, 0nat,
{
    if pattern.len() == 0 {
        path.len() == 0
    } else if pattern[0] == '*' {
        if pattern.len() >= 2 && pattern[1] == '*' {
            glob_any_from(path, pattern.skip(2), 0)
        } else {
            glob_segment_from(path, pattern.skip(1), 0)
        }
    } else {
        path.len() > 0 && path[0] == pattern[0] && glob(path.skip(1), pattern.skip(1))
    }
}

/// Some suffix `path[k..]`, with `k >= start`, matches `rest`.
pub open spec fn glob_any_from(path: Seq<char>, rest: Seq<char>, start: nat) -> bool
    decreases rest.len(), 1nat, path.len() - start,
{
    if start > path.len() {
        false
    } else {
        glob(path.skip(start as int), rest) || (start < path.len() && glob_any_from(
            path,
            rest,
            start + 1,
        ))
    }
}

/// Some suffix `path[k..]`, with `k >= start` and no `/` in `path[start..k]`, matches `rest`.
pub open spec fn glob_segment_from(path: Seq<char>, rest: Seq<char>, start: nat) -> bool
    decreases rest.len(), 1nat, path.len() - start,
{
    if start > path.len() {
        false
    } else {
        glob(path.skip(start as int), rest) || (start < path.len() && path[start as int] != '/'
            && glob_segment_from(path, rest, start + 1))
    }
}

/// What an ignore pattern with at least one character says of `path`.
pub open spec fn glob_match_spec(path: Seq<char>, pattern: Seq<char>) -> bool {
    if !pattern.contains('*') {
        path == pattern || (path.len() > pattern.len() && path[path.len() - pattern.len() - 1]
            == '/' && path.skip(path.len() - pattern.len()) == pattern)
    } else if !pattern.contains('/') {
        glob(basename(path), pattern)
    } else {
        glob(path, pattern)
    }
}

/// Whether `path` is matched by the ignore pattern `pattern`.
pub open spec fn ignore_pattern_matches(path: Seq<char>, pattern: Seq<char>) -> bool {
    pattern.len() != 0 && glob_match_spec(path, pattern)
}

/// Returns `true` if `path` matches `pattern` using simple glob-style rules:
/// an empty pattern never matches; `*` matches any run of characters that does
/// not cross a directory boundary, `**` any run including `/`; a pattern without
/// `/` is matched against the last component of the path only; a pattern without
/// wildcards is compared as an exact path or as a suffix starting at a directory
/// boundary.
pub fn matches_ignore_pattern(path: &str, pattern: &str) -> (res: bool)
    ensures
        res == ignore_pattern_matches(path@, pattern@),
{
    if pattern.is_empty() {
        return false;
    }
    glob_match(path, pattern)
}

/// Glob matching of `path` against a non-empty `pattern` (see `glob_match_spec`).
fn glob_match(path: &str, pattern: &str) -> (res: bool)
    ensures
        res == glob_match_spec(path@, pattern@),
{
    let p = chars_of(path);
    let g = chars_of(pattern);
    if !contains_char(&g, '*') {
        if chars_eq(&p, &g) {
            return true;
        }
        if p.len() > g.len() {
            let at = p.len() - g.len();
            let res = p[at - 1] == '/' && occurs_at(&p, at, &g);
            assert(p@.skip(at as int) =~= p@.subrange(at as int, at + g.len()));
            return res;
        }
        return false;
    }
    if !contains_char(&g, '/') {
        let base = basename_chars(&p);
        return glob_match_recursive(&base, &g);
    }
    glob_match_recursive(&p, &g)
}

/// Whether the whole of `path` matches the whole of `pattern` (see `glob`).
fn glob_match_recursive(path: &[char], pattern: &[char]) -> (res: bool)
    ensures
        res == glob(path@, pattern@),
{
    assert(path@.skip(0) == path@);
    assert(pattern@.skip(0) == pattern@);
    glob_match_from(path, 0, pattern, 0)
}

/// Whether `path[pi..]` matches `pattern[gi..]`.
fn glob_match_from(path: &[char], pi0: usize, pattern: &[char], gi0: usize) -> (res: bool)
    requires
        pi0 <= path.len(),
        gi0 <= pattern.len(),
    ensures
        res == glob(path@.skip(pi0 as int), pattern@.skip(gi0 as int)),
    decreases pattern.len() - gi0, 0nat, 0nat,
{
    let mut pi = pi0;
    let mut gi = gi0;
    while gi < pattern.len()
        invariant
            pi <= path.len(),
            gi <= pattern.len(),
            gi0 <= gi,
            glob(path@.skip(pi as int), pattern@.skip(gi as int)) == glob(
                path@.skip(pi0 as int),
                pattern@.skip(gi0 as int),
            ),
        decreases pattern.len() - gi,
    {
        assert(pattern@.skip(gi as int)[0] == pattern@[gi as int]);
        if pattern[gi] == '*' {
            if gi + 1 < pattern.len() && pattern[gi + 1] == '*' {
                assert(pattern@.skip(gi as int).skip(2) == pattern@.skip(gi + 2));
                return glob_any(path, pi, pattern, gi + 2);
            } else {
                assert(pattern@.skip(gi as int).skip(1) == pattern@.skip(gi + 1));
                return glob_segment(path, pi, pattern, gi + 1);
            }
        }
        if pi >= path.len() {
            return false;
        }
        if pattern[gi] != path[pi] {
            return false;
        }
        assert(path@.skip(pi as int).skip(1) == path@.skip(pi + 1));
        assert(pattern@.skip(gi as int).skip(1) == pattern@.skip(gi + 1));
        pi += 1;
        gi += 1;
    }
    pi == path.len()
}

/// Whether some `path[k..]` with `k >= pi` matches `pattern[gi..]` (the `**` case).
fn glob_any(path: &[char], pi: usize, pattern: &[char], gi: usize) -> (res: bool)
    requires
        pi <= path.len(),
        1 <= gi <= pattern.len(),
    ensures
        res == glob_any_from(path@.skip(pi as int), pattern@.skip(gi as int), 0),
    decreases pattern.len() - gi, 1nat, 0nat,
{
    let ghost p = path@.skip(pi as int);
    let ghost rest = pattern@.skip(gi as int);
    let mut start = pi;
    loop
        invariant
            pi <= start <= path.len(),
            p == path@.skip(pi as int),
            rest == pattern@.skip(gi as int),
            1 <= gi <= pattern.len(),
            glob_any_from(p, rest, 0) == glob_any_from(p, rest, (start - pi) as nat),
        decreases path.len() - start,
    {
        assert(p.skip(start - pi) == path@.skip(start as int));
        if glob_match_from(path, start, pattern, gi) {
            return true;
        }
        if start == path.len() {
            return false;
        }
        start += 1;
    }
}

/// Whether some `path[k..]` with `k >= pi` and no `/` in `path[pi..k]` matches
/// `pattern[gi..]` (the single `*` case).
fn glob_segment(path: &[char], pi: usize, pattern: &[char], gi: usize) -> (res: bool)
    requires
        pi <= path.len(),
        1 <= gi <= pattern.len(),
    ensures
        res == glob_segment_from(path@.skip(pi as int), pattern@.skip(gi as int), 0),
    decreases pattern.len() - gi, 1nat, 0nat,
{
    let ghost p = path@.skip(pi as int);
    let ghost rest = pattern@.skip(gi as int);
    let mut start = pi;
    while start <= path.len()
        invariant
            pi <= start <= path.len(),
            p == path@.skip(pi as int),
            rest == pattern@.skip(gi as int),
            1 <= gi <= pattern.len(),
            glob_segment_from(p, rest, 0) == glob_segment_from(p, rest, (start - pi) as nat),
        decreases path.len() + 1 - start,
    {
        assert(p.skip(start - pi) == path@.skip(start as int));
        if glob_match_from(path, start, pattern, gi) {
            return true;
        }
        if start == path.len() || path[start] == '/' {
            return false;
        }
        start += 1;
    }
    false
}

}
