use vstd::prelude::*;

verus! {

broadcast use vstd::string::group_string_axioms;

/// The characters of `s`, in order.
pub fn chars_of(s: &str) -> (out: Vec<char>)
    ensures
        out@ == s@,
{
    let mut out: Vec<char> = Vec::new();
    for c in it: s.chars()
        invariant
            out@ == it.seq().take(it.index()),
            it.seq() == s@,
    {
        out.push(c);
    }
    out
}

/// Appends `c` to `s` by calling std's `String::push`, which vstd gives no contract;
/// taken on trust, as std documents it: the characters afterwards are the ones before
/// followed by `c`.
#[verifier::external_body]
fn push_char(s: &mut String, c: char)
    ensures
        final(s)@ == old(s)@.push(c),
{
    s.push(c);
}

/// The string made of the characters of `cs`.
pub fn string_of(cs: &[char]) -> (out: String)
    ensures
        out@ == cs@,
{
    let mut out = String::new();
    let mut i: usize = 0;
    while i < cs.len()
        invariant
            i <= cs.len(),
            out@ == cs@.take(i as int),
        decreases cs.len() - i,
    {
        push_char(&mut out, cs[i]);
        i += 1;
        assert(cs@.take(i as int) == cs@.take((i - 1) as int).push(cs@[i - 1]));
    }
    assert(cs@.take(cs.len() as int) == cs@);
    out
}


/// Whether `a` and `b` hold the same characters.
pub fn chars_eq(a: &[char], b: &[char]) -> (res: bool)
    ensures
        res == (a@ == b@),
{
    if a.len() != b.len() {
        return false;
    }
    let mut i: usize = 0;
    while i < a.len()
        invariant
            i <= a.len(),
            a.len() == b.len(),
            forall|j: int| 0 <= j < i ==> a@[j] == b@[j],
        decreases a.len() - i,
    {
        if a[i] != b[i] {
            return false;
        }
        i += 1;
    }
    assert(a@ =~= b@);
    true
}

/// Whether `c` occurs in `a`.
pub fn contains_char(a: &[char], c: char) -> (res: bool)
    ensures
        res == a@.contains(c),
{
    let mut i: usize = 0;
    while i < a.len()
        invariant
            i <= a.len(),
            forall|j: int| 0 <= j < i ==> a@[j] != c,
        decreases a.len() - i,
    {
        if a[i] == c {
            return true;
        }
        i += 1;
    }
    false
}

/// Whether `a` starts at position `at` of `s` (so `s[at..at + a.len()] == a`).
pub fn occurs_at(s: &[char], at: usize, a: &[char]) -> (res: bool)
    ensures
        res == (at + a.len() <= s.len() && s@.subrange(at as int, at + a.len()) == a@),
{
    if at > s.len() || a.len() > s.len() - at {
        return false;
    }
    let mut i: usize = 0;
    while i < a.len()
        invariant
            i <= a.len(),
            at + a.len() <= s.len(),
            forall|j: int| 0 <= j < i ==> s@[at + j] == a@[j],
        decreases a.len() - i,
    {
        if s[at + i] != a[i] {
            return false;
        }
        i += 1;
    }
    assert(s@.subrange(at as int, at + a.len()) =~= a@);
    true
}


/// The characters `s[lo..hi]`, copied.
pub fn copy_range(s: &[char], lo: usize, hi: usize) -> (out: Vec<char>)
    requires
        lo <= hi <= s.len(),
    ensures
        out@ == s@.subrange(lo as int, hi as int),
{
    let mut out: Vec<char> = Vec::new();
    let mut i = lo;
    while i < hi
        invariant
            lo <= i <= hi <= s.len(),
            out@ == s@.subrange(lo as int, i as int),
        decreases hi - i,
    {
        out.push(s[i]);
        i += 1;
    }
    out
}

/// Unicode `White_Space`, the property that `char::is_whitespace` tests.
pub open spec fn is_white(c: char) -> bool {
    let u = c as u32;
    ||| 0x9 <= u <= 0xD
    ||| u == 0x20
    ||| u == 0x85
    ||| u == 0xA0
    ||| u == 0x1680
    ||| 0x2000 <= u <= 0x200A
    ||| u == 0x2028
    ||| u == 0x2029
    ||| u == 0x202F
    ||| u == 0x205F
    ||| u == 0x3000
}

/// Whether `c` is Unicode white space.
pub fn is_whitespace(c: char) -> (res: bool)
    ensures
        res == is_white(c),
{
    let u = c as u32;
    (0x9 <= u && u <= 0xD) || u == 0x20 || u == 0x85 || u == 0xA0 || u == 0x1680 || (0x2000 <= u
        && u <= 0x200A) || u == 0x2028 || u == 0x2029 || u == 0x202F || u == 0x205F || u == 0x3000
}

/// `s` without its leading white space.
pub open spec fn trim_start(s: Seq<char>) -> Seq<char>
    decreases s.len(),
{
    if s.len() > 0 && is_white(s[0]) {
        trim_start(s.skip(1))
    } else {
        s
    }
}

/// `s` without its trailing white space.
pub open spec fn trim_end(s: Seq<char>) -> Seq<char>
    decreases s.len(),
{
    if s.len() > 0 && is_white(s.last()) {
        trim_end(s.drop_last())
    } else {
        s
    }
}

/// `s` without leading and trailing white space (`str::trim`).
pub open spec fn trim(s: Seq<char>) -> Seq<char> {
    trim_end(trim_start(s))
}

/// `s[lo..hi]` trimmed of white space at both ends.
pub fn trim_range(s: &[char], lo: usize, hi: usize) -> (out: Vec<char>)
    requires
        lo <= hi <= s.len(),
    ensures
        out@ == trim(s@.subrange(lo as int, hi as int)),
{
    let ghost t = s@.subrange(lo as int, hi as int);
    let mut a = lo;
    while a < hi && is_whitespace(s[a])
        invariant
            lo <= a <= hi <= s.len(),
            t == s@.subrange(lo as int, hi as int),
            trim_start(t) == trim_start(s@.subrange(a as int, hi as int)),
        decreases hi - a,
    {
        assert(s@.subrange(a as int, hi as int).skip(1) =~= s@.subrange(a + 1, hi as int));
        a += 1;
    }
    assert(trim_start(s@.subrange(a as int, hi as int)) == s@.subrange(a as int, hi as int));
    let mut b = hi;
    while b > a && is_whitespace(s[b - 1])
        invariant
            lo <= a <= b <= hi <= s.len(),
            trim(t) == trim_end(s@.subrange(a as int, b as int)),
        decreases b - a,
    {
        assert(s@.subrange(a as int, b as int).drop_last() =~= s@.subrange(a as int, b - 1));
        b -= 1;
    }
    copy_range(s, a, b)
}

/// The index of the first `c` in `s`, or `s.len()` when there is none.
pub open spec fn find_char(s: Seq<char>, c: char) -> int
    decreases s.len(),
{
    if s.len() == 0 {
        0
    } else if s[0] == c {
        0
    } else {
        1 + find_char(s.skip(1), c)
    }
}

/// `find_char` is the least index holding `c`, or the length.
pub proof fn lemma_find_char(s: Seq<char>, c: char)
    ensures
        0 <= find_char(s, c) <= s.len(),
        find_char(s, c) < s.len() ==> s[find_char(s, c)] == c,
        forall|j: int| 0 <= j < find_char(s, c) ==> s[j] != c,
    decreases s.len(),
{
    if s.len() > 0 && s[0] != c {
        lemma_find_char(s.skip(1), c);
        assert forall|j: int| 0 <= j < find_char(s, c) implies s[j] != c by {
            if j > 0 {
                assert(s[j] == s.skip(1)[j - 1]);
            }
        }
    }
}

/// Any index with the properties of `find_char` is `find_char`.
pub proof fn lemma_find_char_is(s: Seq<char>, c: char, r: int)
    requires
        0 <= r <= s.len(),
        r < s.len() ==> s[r] == c,
        forall|j: int| 0 <= j < r ==> s[j] != c,
    ensures
        find_char(s, c) == r,
    decreases s.len(),
{
    if s.len() > 0 && r > 0 {
        assert(s[0] != c);
        lemma_find_char_is(s.skip(1), c, r - 1);
    }
}

/// `l` without one trailing carriage return.
pub open spec fn strip_cr(l: Seq<char>) -> Seq<char> {
    if l.len() > 0 && l.last() == '\r' {
        l.drop_last()
    } else {
        l
    }
}

/// The lines of `s`, as `str::lines` yields them: split at `\n`, a `\r` just before
/// the `\n` dropped, and no empty line after a final `\n`.
pub open spec fn lines(s: Seq<char>) -> Seq<Seq<char>>
    decreases s.len(),
{
    if s.len() == 0 {
        Seq::empty()
    } else {
        let i = find_char(s, '\n');
        proof {
            lemma_find_char(s, '\n');
        }
        if i >= s.len() {
            seq![s]
        } else {
            seq![strip_cr(s.take(i))] + lines(s.skip(i + 1))
        }
    }
}

/// Splitting into lines commutes with concatenation after a line end: when `x` is
/// empty or ends with a newline, the lines of `x + y` are those of `x` followed by
/// those of `y`.
pub proof fn lemma_lines_concat(x: Seq<char>, y: Seq<char>)
    requires
        x.len() == 0 || x.last() == '\n',
    ensures
        lines(x + y) == lines(x) + lines(y),
    decreases x.len(),
{
    if x.len() == 0 {
        assert(x + y =~= y);
        assert(lines(x) =~= Seq::<Seq<char>>::empty());
        assert(lines(x) + lines(y) =~= lines(y));
    } else {
        let s = x + y;
        let i = find_char(x, '\n');
        lemma_find_char(x, '\n');
        assert(x[x.len() - 1] == '\n');
        assert(i < x.len());
        assert forall|j: int| 0 <= j < i implies s[j] != '\n' by {
            assert(s[j] == x[j]);
        }
        lemma_find_char_is(s, '\n', i);
        let rest = x.skip(i + 1);
        if rest.len() > 0 {
            assert(rest.last() == x.last());
        }
        lemma_lines_concat(rest, y);
        assert(s.take(i) =~= x.take(i));
        assert(s.skip(i + 1) =~= rest + y);
        assert(lines(x + y) =~= lines(x) + lines(y));
    }
}

/// A text made of one newline-free line and a newline has that one line (less a
/// trailing carriage return).
pub proof fn lemma_lines_one(p: Seq<char>)
    requires
        !p.contains('\n'),
    ensures
        lines(p + seq!['\n']) == seq![strip_cr(p)],
{
    let s = p + seq!['\n'];
    assert forall|j: int| 0 <= j < p.len() implies s[j] != '\n' by {
        assert(s[j] == p[j]);
        if p[j] == '\n' {
            assert(p.contains(p[j]));
        }
    }
    assert(s[p.len() as int] == '\n');
    lemma_find_char_is(s, '\n', p.len() as int);
    assert(s.take(p.len() as int) =~= p);
    assert(s.skip(p.len() as int + 1) =~= Seq::<char>::empty());
    assert(lines(s.skip(p.len() as int + 1)) =~= Seq::<Seq<char>>::empty());
    assert(lines(s) =~= seq![strip_cr(p)]);
}

/// What `trim_end` leaves does not end in white space.
pub proof fn lemma_trim_end_last(s: Seq<char>)
    ensures
        trim_end(s).len() > 0 ==> !is_white(trim_end(s).last()),
    decreases s.len(),
{
    if s.len() > 0 && is_white(s.last()) {
        lemma_trim_end_last(s.drop_last());
    }
}

/// The character sequences held by a sequence of strings.
pub open spec fn string_views(v: Seq<String>) -> Seq<Seq<char>> {
    v.map_values(|x: String| x@)
}

/// The character sequences held by a vector of character vectors.
pub open spec fn char_rows(v: Seq<Vec<char>>) -> Seq<Seq<char>> {
    v.map_values(|x: Vec<char>| x@)
}

/// The lines of `s` (see `lines`).
pub fn split_lines(s: &[char]) -> (out: Vec<Vec<char>>)
    ensures
        char_rows(out@) == lines(s@),
{
    let mut out: Vec<Vec<char>> = Vec::new();
    let mut pos: usize = 0;
    assert(s@.skip(0) == s@);
    while pos < s.len()
        invariant
            pos <= s.len(),
            lines(s@) == char_rows(out@) + lines(s@.skip(pos as int)),
        decreases s.len() - pos,
    {
        let ghost rest = s@.skip(pos as int);
        let mut j = pos;
        while j < s.len() && s[j] != '\n'
            invariant
                pos <= j <= s.len(),
                forall|k: int| pos <= k < j ==> s@[k] != '\n',
            decreases s.len() - j,
        {
            j += 1;
        }
        proof {
            lemma_find_char_is(rest, '\n', j - pos);
        }
        let mut end = j;
        if end > pos && s[end - 1] == '\r' && j < s.len() {
            end -= 1;
        }
        let line = copy_range(s, pos, end);
        let ghost before = char_rows(out@);
        out.push(line);
        proof {
            assert(char_rows(out@) =~= before.push(line@));
            if j < s.len() {
                assert(rest.take(j - pos) =~= s@.subrange(pos as int, j as int));
                assert(strip_cr(rest.take(j - pos)) =~= line@);
                assert(rest.skip(j - pos + 1) =~= s@.skip(j + 1));
            } else {
                assert(rest =~= line@);
                assert(s@.skip(s.len() as int) =~= Seq::<char>::empty());
            }
        }
        if j < s.len() {
            pos = j + 1;
        } else {
            pos = j;
        }
    }
    assert(s@.skip(pos as int) =~= Seq::<char>::empty());
    assert(char_rows(out@) + Seq::<Seq<char>>::empty() =~= char_rows(out@));
    out
}

/// The last `/`-separated component of `path` (the whole of it when it holds no `/`).
pub open spec fn basename(path: Seq<char>) -> Seq<char>
    decreases path.len(),
{
    if path.len() == 0 {
        path
    } else if path.last() == '/' {
        Seq::empty()
    } else {
        basename(path.drop_last()).push(path.last())
    }
}

/// The characters of the last `/`-separated component of `path`.
pub fn basename_chars(path: &[char]) -> (res: Vec<char>)
    ensures
        res@ == basename(path@),
{
    let mut start: usize = path.len();
    assert(path@.take(start as int) == path@);
    assert(path@.skip(start as int) == Seq::<char>::empty());
    while start > 0 && path[start - 1] != '/'
        invariant
            start <= path.len(),
            basename(path@) == basename(path@.take(start as int)) + path@.skip(start as int),
        decreases start,
    {
        let ghost s = start;
        assert(path@.take(s - 1) == path@.take(s as int).drop_last());
        assert(path@.skip(s - 1) == seq![path@[s - 1]] + path@.skip(s as int));
        start -= 1;
    }
    proof {
        if start > 0 {
            assert(path@.take(start as int).last() == '/');
        }
    }
    let mut res: Vec<char> = Vec::new();
    let mut i = start;
    while i < path.len()
        invariant
            start <= i <= path.len(),
            res@ == path@.subrange(start as int, i as int),
        decreases path.len() - i,
    {
        res.push(path[i]);
        i += 1;
    }
    assert(res@ =~= path@.skip(start as int));
    res
}


/// The number of bytes of the UTF-8 encoding of `c` (what `char::len_utf8` returns).
pub open spec fn char_width(c: char) -> nat {
    let u = c as u32;
    if u < 0x80 {
        1
    } else if u < 0x800 {
        2
    } else if u < 0x10000 {
        3
    } else {
        4
    }
}

/// The number of bytes of the UTF-8 encoding of `c`.
pub fn len_utf8(c: char) -> (res: usize)
    ensures
        res == char_width(c),
{
    let u = c as u32;
    if u < 0x80 {
        1
    } else if u < 0x800 {
        2
    } else if u < 0x10000 {
        3
    } else {
        4
    }
}

/// The number of bytes of the UTF-8 encoding of `s`.
pub open spec fn byte_len(s: Seq<char>) -> nat
    decreases s.len(),
{
    if s.len() == 0 {
        0
    } else {
        byte_len(s.drop_last()) + char_width(s.last())
    }
}

/// Byte lengths add up over concatenation.
pub proof fn lemma_byte_len_concat(a: Seq<char>, b: Seq<char>)
    ensures
        byte_len(a + b) == byte_len(a) + byte_len(b),
    decreases b.len(),
{
    if b.len() > 0 {
        assert((a + b).drop_last() =~= a + b.drop_last());
        lemma_byte_len_concat(a, b.drop_last());
    } else {
        assert(a + b =~= a);
    }
}

/// Every character takes at least one byte.
pub proof fn lemma_byte_len_at_least_len(s: Seq<char>)
    ensures
        s.len() <= byte_len(s),
    decreases s.len(),
{
    if s.len() > 0 {
        lemma_byte_len_at_least_len(s.drop_last());
    }
}

/// `byte_len` is the length of vstd's `encode_utf8`, which `str::len` returns.
pub proof fn lemma_byte_len_encode(s: Seq<char>)
    ensures
        byte_len(s) == vstd::utf8::encode_utf8(s).len(),
    decreases s.len(),
{
    if s.len() > 0 {
        lemma_byte_len_encode(s.drop_first());
        lemma_byte_len_concat(seq![s[0]], s.drop_first());
        assert(seq![s[0]] + s.drop_first() =~= s);
        assert(seq![s[0]].drop_last() =~= Seq::<char>::empty());
        assert(byte_len(Seq::<char>::empty()) == 0);
        assert(seq![s[0]].last() == s[0]);
        assert(byte_len(seq![s[0]]) == char_width(s[0]));
        vstd::utf8::char_is_scalar(s[0]);
        assert(vstd::utf8::encode_scalar(s[0] as u32).len() == char_width(s[0]));
        assert(vstd::utf8::encode_utf8(s) == vstd::utf8::encode_scalar(s[0] as u32)
            + vstd::utf8::encode_utf8(s.drop_first()));
    }
}

/// Longer prefixes take more bytes.
pub proof fn lemma_byte_len_take_increasing(s: Seq<char>, i: int, j: int)
    requires
        0 <= i < j <= s.len(),
    ensures
        byte_len(s.take(i)) < byte_len(s.take(j)),
    decreases j - i,
{
    assert(s.take(j).drop_last() =~= s.take(j - 1));
    if i < j - 1 {
        lemma_byte_len_take_increasing(s, i, j - 1);
    }
}

/// Byte offset `b` of the UTF-8 encoding of `s` falls between two characters.
pub open spec fn is_boundary(s: Seq<char>, b: int) -> bool {
    exists|k: int| 0 <= k <= s.len() && #[trigger] byte_len(s.take(k)) == b
}

/// The number of characters before byte offset `b` of `s`, when `b` is a boundary.
pub open spec fn char_index(s: Seq<char>, b: int) -> int {
    choose|k: int| 0 <= k <= s.len() && #[trigger] byte_len(s.take(k)) == b
}

/// At a boundary, `char_index` is the one character count whose encoding is `b` bytes long.
pub proof fn lemma_char_index(s: Seq<char>, b: int, k: int)
    requires
        0 <= k <= s.len(),
        byte_len(s.take(k)) == b,
    ensures
        is_boundary(s, b),
        char_index(s, b) == k,
{
    let c = char_index(s, b);
    if c < k {
        lemma_byte_len_take_increasing(s, c, k);
    } else if k < c {
        lemma_byte_len_take_increasing(s, k, c);
    }
}

/// The character count at byte offset `b` of `cs`, when `b` is a boundary.
pub fn char_index_at(cs: &[char], b: usize) -> (res: Option<usize>)
    ensures
        match res {
            Some(k) => k <= cs.len() && byte_len(cs@.take(k as int)) == b && char_index(cs@, b as int) == k,
            None => !is_boundary(cs@, b as int),
        },
{
    let mut k: usize = 0;
    let mut acc: usize = 0;
    assert(cs@.take(0) =~= Seq::<char>::empty());
    while k < cs.len() && acc < b
        invariant
            k <= cs.len(),
            acc == byte_len(cs@.take(k as int)),
            acc <= b,
        decreases cs.len() - k,
    {
        let w = len_utf8(cs[k]);
        assert(cs@.take(k + 1).drop_last() =~= cs@.take(k as int));
        if w > b - acc {
            proof {
                assert forall|j: int| 0 <= j <= cs@.len() implies #[trigger] byte_len(cs@.take(j))
                    != b by {
                    if j <= k {
                        if j < k {
                            lemma_byte_len_take_increasing(cs@, j, k as int);
                        }
                    } else {
                        if j > k + 1 {
                            lemma_byte_len_take_increasing(cs@, k + 1, j);
                        }
                    }
                }
            }
            return None;
        }
        acc = acc + w;
        k += 1;
    }
    if acc == b {
        proof {
            lemma_char_index(cs@, b as int, k as int);
        }
        Some(k)
    } else {
        proof {
            assert(k == cs.len());
            assert forall|j: int| 0 <= j <= cs@.len() implies #[trigger] byte_len(cs@.take(j))
                != b by {
                if j < k {
                    lemma_byte_len_take_increasing(cs@, j, k as int);
                }
            }
        }
        None
    }
}

/// The number of bytes of the UTF-8 encoding of `cs[..k]`.
pub fn byte_len_of(cs: &[char], k: usize) -> (res: usize)
    requires
        k <= cs.len(),
        byte_len(cs@) <= usize::MAX,
    ensures
        res == byte_len(cs@.take(k as int)),
{
    let mut i: usize = 0;
    let mut acc: usize = 0;
    assert(cs@.take(0) =~= Seq::<char>::empty());
    while i < k
        invariant
            i <= k <= cs.len(),
            byte_len(cs@) <= usize::MAX,
            acc == byte_len(cs@.take(i as int)),
        decreases k - i,
    {
        assert(cs@.take(i + 1).drop_last() =~= cs@.take(i as int));
        proof {
            if i + 1 < cs.len() {
                lemma_byte_len_take_increasing(cs@, i + 1, cs@.len() as int);
            }
            assert(cs@.take(cs@.len() as int) =~= cs@);
        }
        acc = acc + len_utf8(cs[i]);
        i += 1;
    }
    acc
}


/// Appending an element adds it to the set of elements.
pub proof fn lemma_to_set_push<A>(s: Seq<A>, x: A)
    ensures
        s.push(x).to_set() == s.to_set().insert(x),
{
    let t = s.push(x);
    assert forall|y: A| #![auto] t.to_set().contains(y) <==> s.to_set().insert(x).contains(y) by {
        if t.contains(y) {
            let k = choose|k: int| 0 <= k < t.len() && t[k] == y;
            if k < s.len() {
                assert(s[k] == y);
            }
        }
        if s.contains(y) {
            let k = choose|k: int| 0 <= k < s.len() && s[k] == y;
            assert(t[k] == y);
        }
        if y == x {
            assert(t[s.len() as int] == x);
        }
    }
    assert(t.to_set() =~= s.to_set().insert(x));
}


/// The first index `j` at which `pat` starts in `s`, or `s.len()` when it occurs nowhere.
pub open spec fn find_str(s: Seq<char>, pat: Seq<char>) -> int
    decreases s.len(),
{
    if pat.is_prefix_of(s) || s.len() == 0 {
        0
    } else {
        1 + find_str(s.skip(1), pat)
    }
}

/// `find_str` is the least index where `pat` starts, or the length.
pub proof fn lemma_find_str(s: Seq<char>, pat: Seq<char>)
    ensures
        0 <= find_str(s, pat) <= s.len(),
        find_str(s, pat) < s.len() ==> pat.is_prefix_of(s.skip(find_str(s, pat))),
        find_str(s, pat) < s.len() ==> find_str(s, pat) + pat.len() <= s.len(),
        forall|j: int| 0 <= j < find_str(s, pat) ==> !pat.is_prefix_of(#[trigger] s.skip(j)),
    decreases s.len(),
{
    if pat.is_prefix_of(s) || s.len() == 0 {
        assert(s.skip(0) =~= s);
    } else {
        lemma_find_str(s.skip(1), pat);
        let r = find_str(s, pat);
        assert forall|j: int| 0 <= j < r implies !pat.is_prefix_of(#[trigger] s.skip(j)) by {
            if j == 0 {
                assert(s.skip(0) =~= s);
            } else {
                assert(s.skip(1).skip(j - 1) =~= s.skip(j));
            }
        }
        if r < s.len() {
            assert(s.skip(1).skip(r - 1) =~= s.skip(r));
        }
    }
}

/// Any index with the properties of `find_str` is `find_str`.
pub proof fn lemma_find_str_is(s: Seq<char>, pat: Seq<char>, r: int)
    requires
        0 <= r <= s.len(),
        r < s.len() ==> pat.is_prefix_of(s.skip(r)),
        forall|j: int| 0 <= j < r ==> !pat.is_prefix_of(#[trigger] s.skip(j)),
    ensures
        find_str(s, pat) == r,
    decreases s.len(),
{
    if r > 0 {
        assert(s.skip(0) =~= s);
        assert(!pat.is_prefix_of(s.skip(0)));
        assert forall|j: int| 0 <= j < r - 1 implies !pat.is_prefix_of(#[trigger] s.skip(1).skip(
            j,
        )) by {
            assert(s.skip(1).skip(j) =~= s.skip(j + 1));
        }
        if r < s.len() {
            assert(s.skip(1).skip(r - 1) =~= s.skip(r));
        }
        lemma_find_str_is(s.skip(1), pat, r - 1);
    } else if r == 0 && s.len() > 0 {
        assert(s.skip(0) =~= s);
    }
}

/// The first index at or after `from` where `pat` starts in `s`, or `s.len()`.
pub fn find_str_from(s: &[char], from: usize, pat: &[char]) -> (res: usize)
    requires
        from <= s.len(),
    ensures
        res == from + find_str(s@.skip(from as int), pat@),
        from <= res <= s.len(),
{
    let ghost t = s@.skip(from as int);
    let mut j = from;
    while j < s.len() && !occurs_at(s, j, pat)
        invariant
            from <= j <= s.len(),
            t == s@.skip(from as int),
            forall|q: int| 0 <= q < j - from ==> !pat@.is_prefix_of(#[trigger] t.skip(q)),
        decreases s.len() - j,
    {
        proof {
            assert(t.skip(j - from) =~= s@.skip(j as int));
            if pat@.is_prefix_of(s@.skip(j as int)) {
                assert(s@.subrange(j as int, j + pat@.len()) =~= pat@);
            }
        }
        j += 1;
    }
    proof {
        if j < s.len() {
            assert(t.skip(j - from) =~= s@.skip(j as int));
            assert(s@.skip(j as int).subrange(0, pat@.len() as int) =~= s@.subrange(
                j as int,
                j + pat@.len(),
            ));
        }
        lemma_find_str_is(t, pat@, j - from);
    }
    j
}

/// `s` cut at every occurrence of the non-empty `sep` (`str::split`).
pub open spec fn split_str(s: Seq<char>, sep: Seq<char>) -> Seq<Seq<char>>
    decreases s.len(),
{
    let i = find_str(s, sep);
    proof {
        lemma_find_str(s, sep);
    }
    if sep.len() == 0 || i >= s.len() {
        seq![s]
    } else {
        seq![s.take(i)] + split_str(s.skip(i + sep.len()), sep)
    }
}

/// `s` with every occurrence of the non-empty `from`, left to right, replaced by `to`
/// (`str::replace`).
pub open spec fn replace_all(s: Seq<char>, from: Seq<char>, to: Seq<char>) -> Seq<char>
    decreases s.len(),
{
    let i = find_str(s, from);
    proof {
        lemma_find_str(s, from);
    }
    if from.len() == 0 || i >= s.len() {
        s
    } else {
        s.take(i) + to + replace_all(s.skip(i + from.len()), from, to)
    }
}

/// The pieces of `s` cut at every occurrence of `sep` (see `split_str`).
pub fn split_on_str(s: &[char], sep: &[char]) -> (res: Vec<Vec<char>>)
    requires
        sep.len() > 0,
    ensures
        char_rows(res@) == split_str(s@, sep@),
{
    let mut res: Vec<Vec<char>> = Vec::new();
    let mut pos: usize = 0;
    assert(s@.skip(0) =~= s@);
    loop
        invariant
            pos <= s.len(),
            sep.len() > 0,
            split_str(s@, sep@) == char_rows(res@) + split_str(s@.skip(pos as int), sep@),
        decreases s.len() - pos,
    {
        let ghost rest = s@.skip(pos as int);
        let i = find_str_from(s, pos, sep);
        proof {
            lemma_find_str(rest, sep@);
        }
        let piece = copy_range(s, pos, i);
        let ghost before = char_rows(res@);
        res.push(piece);
        assert(char_rows(res@) =~= before.push(piece@));
        if i >= s.len() {
            assert(rest =~= piece@);
            assert(split_str(rest, sep@) == seq![rest]);
            assert(before + seq![rest] =~= before.push(piece@));
            return res;
        }
        assert(rest.take(i - pos) =~= piece@);
        assert(rest.skip(i - pos + sep.len()) =~= s@.skip(i + sep.len()));
        assert(before + (seq![piece@] + split_str(s@.skip(i + sep.len()), sep@)) =~= before.push(
            piece@,
        ) + split_str(s@.skip(i + sep.len()), sep@));
        pos = i + sep.len();
    }
}

/// `s` with every occurrence of `from` replaced by `to` (see `replace_all`).
pub fn replace_str(s: &[char], from: &[char], to: &[char]) -> (res: Vec<char>)
    requires
        from.len() > 0,
    ensures
        res@ == replace_all(s@, from@, to@),
{
    let mut res: Vec<char> = Vec::new();
    let mut pos: usize = 0;
    assert(s@.skip(0) =~= s@);
    loop
        invariant
            pos <= s.len(),
            from.len() > 0,
            replace_all(s@, from@, to@) == res@ + replace_all(s@.skip(pos as int), from@, to@),
        decreases s.len() - pos,
    {
        let ghost rest = s@.skip(pos as int);
        let ghost before = res@;
        let i = find_str_from(s, pos, from);
        proof {
            lemma_find_str(rest, from@);
        }
        let mut j = pos;
        while j < i
            invariant
                pos <= j <= i <= s.len(),
                res@ == before + s@.subrange(pos as int, j as int),
            decreases i - j,
        {
            res.push(s[j]);
            j += 1;
        }
        if i >= s.len() {
            assert(s@.subrange(pos as int, i as int) =~= rest);
            return res;
        }
        let mut q: usize = 0;
        while q < to.len()
            invariant
                q <= to.len(),
                res@ == before + s@.subrange(pos as int, i as int) + to@.take(q as int),
            decreases to.len() - q,
        {
            res.push(to[q]);
            q += 1;
        }
        assert(to@.take(to.len() as int) =~= to@);
        assert(rest.take(i - pos) =~= s@.subrange(pos as int, i as int));
        assert(rest.skip(i - pos + from.len()) =~= s@.skip(i + from.len()));
        pos = i + from.len();
    }
}

/// The index of the first white-space character of `s`, or `s.len()`.
pub open spec fn find_white(s: Seq<char>) -> int
    decreases s.len(),
{
    if s.len() == 0 || is_white(s[0]) {
        0
    } else {
        1 + find_white(s.skip(1))
    }
}

/// `find_white` is the least index holding white space, or the length.
pub proof fn lemma_find_white(s: Seq<char>)
    ensures
        0 <= find_white(s) <= s.len(),
        find_white(s) < s.len() ==> is_white(s[find_white(s)]),
        forall|j: int| 0 <= j < find_white(s) ==> !is_white(s[j]),
    decreases s.len(),
{
    if s.len() > 0 && !is_white(s[0]) {
        lemma_find_white(s.skip(1));
        assert forall|j: int| 0 <= j < find_white(s) implies !is_white(s[j]) by {
            if j > 0 {
                assert(s[j] == s.skip(1)[j - 1]);
            }
        }
    }
}

/// The maximal runs of non-white-space characters of `s` (`str::split_whitespace`).
pub open spec fn words(s: Seq<char>) -> Seq<Seq<char>>
    decreases s.len(),
{
    if s.len() == 0 {
        Seq::empty()
    } else if is_white(s[0]) {
        words(s.skip(1))
    } else {
        let i = find_white(s);
        proof {
            lemma_find_white(s);
        }
        seq![s.take(i)] + words(s.skip(i))
    }
}

/// The white-space separated words of `s` (see `words`).
pub fn split_words(s: &[char]) -> (res: Vec<Vec<char>>)
    ensures
        char_rows(res@) == words(s@),
{
    let mut res: Vec<Vec<char>> = Vec::new();
    let mut pos: usize = 0;
    assert(s@.skip(0) =~= s@);
    assert(char_rows(res@) + words(s@) =~= words(s@));
    while pos < s.len()
        invariant
            pos <= s.len(),
            words(s@) == char_rows(res@) + words(s@.skip(pos as int)),
        decreases s.len() - pos,
    {
        let ghost rest = s@.skip(pos as int);
        assert(rest[0] == s@[pos as int]);
        if is_whitespace(s[pos]) {
            assert(rest.skip(1) =~= s@.skip(pos + 1));
            pos += 1;
        } else {
            let mut j = pos;
            while j < s.len() && !is_whitespace(s[j])
                invariant
                    pos <= j <= s.len(),
                    forall|q: int| pos <= q < j ==> !is_white(s@[q]),
                decreases s.len() - j,
            {
                j += 1;
            }
            proof {
                lemma_find_white(rest);
                assert forall|q: int| 0 <= q < j - pos implies !is_white(rest[q]) by {
                    assert(rest[q] == s@[q + pos]);
                }
                if j < s.len() {
                    assert(rest[j - pos] == s@[j as int]);
                }
                if find_white(rest) < j - pos {
                    assert(rest[find_white(rest)] == s@[pos + find_white(rest)]);
                }
                if find_white(rest) > j - pos {
                    assert(!is_white(rest[j - pos]));
                }
            }
            let w = copy_range(s, pos, j);
            let ghost before = char_rows(res@);
            res.push(w);
            assert(char_rows(res@) =~= before.push(w@));
            assert(rest.take(j - pos) =~= w@);
            assert(rest.skip(j - pos) =~= s@.skip(j as int));
            assert(before + (seq![w@] + words(s@.skip(j as int))) =~= before.push(w@) + words(
                s@.skip(j as int),
            ));
            pos = j;
        }
    }
    assert(s@.skip(pos as int) =~= Seq::<char>::empty());
    assert(char_rows(res@) + Seq::<Seq<char>>::empty() =~= char_rows(res@));
    res
}

/// The elements of `ws` with `sep` between neighbours (`join`).
pub open spec fn join_with(ws: Seq<Seq<char>>, sep: Seq<char>) -> Seq<char>
    decreases ws.len(),
{
    if ws.len() == 0 {
        Seq::empty()
    } else if ws.len() == 1 {
        ws[0]
    } else {
        join_with(ws.drop_last(), sep) + sep + ws.last()
    }
}

/// The elements of `ws[from..]` with `sep` between neighbours.
pub fn join_chars(ws: &Vec<Vec<char>>, from: usize, sep: &[char]) -> (res: Vec<char>)
    requires
        from <= ws.len(),
    ensures
        res@ == join_with(char_rows(ws@).skip(from as int), sep@),
{
    let ghost all = char_rows(ws@).skip(from as int);
    let mut res: Vec<char> = Vec::new();
    let mut i = from;
    assert(all.take(0) =~= Seq::<Seq<char>>::empty());
    while i < ws.len()
        invariant
            from <= i <= ws.len(),
            all == char_rows(ws@).skip(from as int),
            res@ == join_with(all.take(i - from), sep@),
        decreases ws.len() - i,
    {
        let ghost part = all.take(i - from);
        assert(all.take(i - from + 1) =~= part.push(ws@[i as int]@));
        assert(all.take(i - from + 1).drop_last() =~= part);
        if i > from {
            let mut q: usize = 0;
            let ghost base = res@;
            while q < sep.len()
                invariant
                    q <= sep.len(),
                    res@ == base + sep@.take(q as int),
                decreases sep.len() - q,
            {
                res.push(sep[q]);
                q += 1;
            }
            assert(sep@.take(sep.len() as int) =~= sep@);
        }
        let ghost base2 = res@;
        let w = &ws[i];
        let mut q: usize = 0;
        while q < w.len()
            invariant
                q <= w.len(),
                res@ == base2 + w@.take(q as int),
            decreases w.len() - q,
        {
            res.push(w[q]);
            q += 1;
        }
        assert(w@.take(w.len() as int) =~= w@);
        proof {
            if i == from {
                assert(res@ =~= w@);
            }
        }
        i += 1;
    }
    assert(all.take(i - from) =~= all);
    res
}

/// `s` without the copies of `c` at its start (`trim_start_matches` with a char).
pub open spec fn trim_start_char(s: Seq<char>, c: char) -> Seq<char>
    decreases s.len(),
{
    if s.len() > 0 && s[0] == c {
        trim_start_char(s.skip(1), c)
    } else {
        s
    }
}

/// `s` without the copies of `c` at its end (`trim_end_matches` with a char).
pub open spec fn trim_end_char(s: Seq<char>, c: char) -> Seq<char>
    decreases s.len(),
{
    if s.len() > 0 && s.last() == c {
        trim_end_char(s.drop_last(), c)
    } else {
        s
    }
}

/// The number of copies of `c` at the start of `s`.
pub fn leading_count(s: &[char], c: char) -> (res: usize)
    ensures
        res <= s.len(),
        s@.skip(res as int) == trim_start_char(s@, c),
{
    let mut i: usize = 0;
    assert(s@.skip(0) =~= s@);
    while i < s.len() && s[i] == c
        invariant
            i <= s.len(),
            trim_start_char(s@, c) == trim_start_char(s@.skip(i as int), c),
        decreases s.len() - i,
    {
        assert(s@.skip(i as int).skip(1) =~= s@.skip(i + 1));
        i += 1;
    }
    i
}

/// The number of characters of `s` left once the copies of `c` at its end are dropped.
pub fn trailing_trimmed_len(s: &[char], c: char) -> (res: usize)
    ensures
        res <= s.len(),
        s@.take(res as int) == trim_end_char(s@, c),
{
    let mut i: usize = s.len();
    assert(s@.take(i as int) =~= s@);
    while i > 0 && s[i - 1] == c
        invariant
            i <= s.len(),
            trim_end_char(s@, c) == trim_end_char(s@.take(i as int), c),
        decreases i,
    {
        assert(s@.take(i as int).drop_last() =~= s@.take(i - 1));
        i -= 1;
    }
    i
}

/// Whether every character of `s` is an ASCII digit.
pub open spec fn all_digits(s: Seq<char>) -> bool {
    forall|i: int| 0 <= i < s.len() ==> '0' <= #[trigger] s[i] <= '9'
}

/// Whether every character of `s` is an ASCII digit (true of the empty text).
pub fn is_all_digits(s: &[char]) -> (res: bool)
    ensures
        res == all_digits(s@),
{
    let mut i: usize = 0;
    while i < s.len()
        invariant
            i <= s.len(),
            forall|j: int| 0 <= j < i ==> '0' <= #[trigger] s@[j] <= '9',
        decreases s.len() - i,
    {
        if !('0' <= s[i] && s[i] <= '9') {
            return false;
        }
        i += 1;
    }
    true
}

/// The decimal digit for `d < 10`.
pub open spec fn digit_char(d: nat) -> char {
    if d == 0 {
        '0'
    } else if d == 1 {
        '1'
    } else if d == 2 {
        '2'
    } else if d == 3 {
        '3'
    } else if d == 4 {
        '4'
    } else if d == 5 {
        '5'
    } else if d == 6 {
        '6'
    } else if d == 7 {
        '7'
    } else if d == 8 {
        '8'
    } else {
        '9'
    }
}

/// The decimal representation of `n`, without leading zeros.
pub open spec fn decimal(n: nat) -> Seq<char>
    decreases n,
{
    if n < 10 {
        seq![digit_char(n)]
    } else {
        decimal(n / 10) + seq![digit_char(n % 10)]
    }
}

/// The digit for `d < 10`.
fn digit(d: usize) -> (c: char)
    requires
        d < 10,
    ensures
        c == digit_char(d as nat),
{
    if d == 0 {
        '0'
    } else if d == 1 {
        '1'
    } else if d == 2 {
        '2'
    } else if d == 3 {
        '3'
    } else if d == 4 {
        '4'
    } else if d == 5 {
        '5'
    } else if d == 6 {
        '6'
    } else if d == 7 {
        '7'
    } else if d == 8 {
        '8'
    } else {
        '9'
    }
}

/// The decimal representation of `n` (what `n.to_string()` gives).
pub fn decimal_chars(n: usize) -> (res: Vec<char>)
    ensures
        res@ == decimal(n as nat),
    decreases n,
{
    if n < 10 {
        let mut v: Vec<char> = Vec::new();
        v.push(digit(n));
        assert(v@ =~= seq![digit_char(n as nat)]);
        v
    } else {
        let mut v = decimal_chars(n / 10);
        v.push(digit(n % 10));
        v
    }
}

}
