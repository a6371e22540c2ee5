use vstd::prelude::*;

use crate::text::{find_char, lemma_find_char};
use crate::tree::{
    child_dir, child_dirs, dir_name, dir_rows, directly_in, file_rows, insert_by_path,
    insert_unique_sorted, lemma_child_dirs_bounds, lemma_insert_unique_sorted_members,
    lemma_insert_unique_sorted_set, level_files, max_path_len, str_lt, tree_rows,
};
use crate::types::{FileView, NodeView};

verus! {

/// No sequence comes before itself.
pub proof fn lemma_str_lt_irreflexive(a: Seq<char>)
    ensures
        !str_lt(a, a),
    decreases a.len(),
{
    if a.len() > 0 {
        lemma_str_lt_irreflexive(a.skip(1));
    }
}

/// The order of character sequences is transitive.
pub proof fn lemma_str_lt_transitive(a: Seq<char>, b: Seq<char>, c: Seq<char>)
    requires
        str_lt(a, b),
        str_lt(b, c),
    ensures
        str_lt(a, c),
    decreases a.len(),
{
    if a.len() > 0 && b.len() > 0 && c.len() > 0 && a[0] == b[0] && b[0] == c[0] {
        lemma_str_lt_transitive(a.skip(1), b.skip(1), c.skip(1));
    }
}

/// Of two different character sequences, one comes before the other.
pub proof fn lemma_str_lt_total(a: Seq<char>, b: Seq<char>)
    requires
        a != b,
    ensures
        str_lt(a, b) || str_lt(b, a),
    decreases a.len(),
{
    if a.len() == 0 {
        assert(b.len() > 0) by {
            if b.len() == 0 {
                assert(a =~= b);
            }
        }
    } else if b.len() > 0 && a[0] == b[0] {
        if a.skip(1) == b.skip(1) {
            assert(a =~= seq![a[0]] + a.skip(1));
            assert(b =~= seq![b[0]] + b.skip(1));
        }
        lemma_str_lt_total(a.skip(1), b.skip(1));
    } else if b.len() > 0 {
        vstd::utf8::char_u32_cast(a[0], a[0] as u32);
        vstd::utf8::char_u32_cast(b[0], b[0] as u32);
        assert((a[0] as u32) != (b[0] as u32));
    }
}

/// Each entry comes strictly before every later one.
pub open spec fn strictly_sorted(s: Seq<Seq<char>>) -> bool {
    forall|i: int, j: int| 0 <= i < j < s.len() ==> str_lt(#[trigger] s[i], #[trigger] s[j])
}

/// `insert_unique_sorted` keeps a list strictly sorted.
pub proof fn lemma_insert_unique_sorted_sorted(s: Seq<Seq<char>>, x: Seq<char>)
    requires
        strictly_sorted(s),
    ensures
        strictly_sorted(insert_unique_sorted(s, x)),
    decreases s.len(),
{
    let r = insert_unique_sorted(s, x);
    if s.len() == 0 {
    } else if s[0] == x {
    } else if str_lt(x, s[0]) {
        assert forall|i: int, j: int| 0 <= i < j < r.len() implies str_lt(
            #[trigger] r[i],
            #[trigger] r[j],
        ) by {
            if i == 0 {
                if j > 1 {
                    lemma_str_lt_transitive(x, s[0], s[j - 1]);
                }
            } else {
                assert(r[i] == s[i - 1] && r[j] == s[j - 1]);
            }
        }
    } else {
        lemma_str_lt_total(s[0], x);
        let rest = s.skip(1);
        assert(strictly_sorted(rest)) by {
            assert forall|i: int, j: int| 0 <= i < j < rest.len() implies str_lt(
                #[trigger] rest[i],
                #[trigger] rest[j],
            ) by {
                assert(rest[i] == s[i + 1] && rest[j] == s[j + 1]);
            }
        }
        lemma_insert_unique_sorted_sorted(rest, x);
        lemma_insert_unique_sorted_members(rest, x);
        let r1 = insert_unique_sorted(rest, x);
        assert(r =~= seq![s[0]] + r1);
        assert forall|i: int, j: int| 0 <= i < j < r.len() implies str_lt(
            #[trigger] r[i],
            #[trigger] r[j],
        ) by {
            if i == 0 {
                assert(r[j] == r1[j - 1]);
                if r1[j - 1] != x {
                    let k = choose|k: int| 0 <= k < rest.len() && rest[k] == r1[j - 1];
                    assert(s[k + 1] == r[j]);
                }
            } else {
                assert(r[i] == r1[i - 1] && r[j] == r1[j - 1]);
            }
        }
    }
}

/// `d` is a child directory of `p`: `p`, then a name without `/`, then `/`.
pub open spec fn is_child_dir(p: Seq<char>, d: Seq<char>) -> bool {
    &&& d.len() > p.len()
    &&& p.is_prefix_of(d)
    &&& d.last() == '/'
    &&& forall|k: int| p.len() <= k < d.len() - 1 ==> d[k] != '/'
}

/// The child directories of `p` are listed strictly sorted, and each is a child
/// directory of `p`.
pub proof fn lemma_child_dirs_shape(p: Seq<char>, files: Seq<FileView>)
    ensures
        strictly_sorted(child_dirs(p, files)),
        forall|k: int|
            0 <= k < child_dirs(p, files).len() ==> is_child_dir(p, #[trigger] child_dirs(p, files)[k]),
    decreases files.len(),
{
    if files.len() > 0 {
        let prev = child_dirs(p, files.drop_last());
        lemma_child_dirs_shape(p, files.drop_last());
        let path = files.last().path;
        match child_dir(p, path) {
            Some(d) => {
                let rest = path.skip(p.len() as int);
                let i = find_char(rest, '/');
                lemma_find_char(rest, '/');
                assert(d == p + rest.take(i) + seq!['/']);
                assert(is_child_dir(p, d)) by {
                    assert forall|k: int| p.len() <= k < d.len() - 1 implies d[k] != '/' by {
                        assert(d[k] == rest[k - p.len()]);
                    }
                    assert(p.is_prefix_of(d)) by {
                        assert(d.take(p.len() as int) =~= p);
                    }
                }
                lemma_insert_unique_sorted_sorted(prev, d);
                lemma_insert_unique_sorted_members(prev, d);
                let r = insert_unique_sorted(prev, d);
                assert forall|k: int| 0 <= k < r.len() implies is_child_dir(p, #[trigger] r[k]) by {
                    if r[k] != d {
                        let j = choose|j: int| 0 <= j < prev.len() && prev[j] == r[k];
                        assert(is_child_dir(p, prev[j]));
                    }
                }
            },
            None => {},
        }
    }
}

/// Two different child directories of the same directory do not both lie at the
/// start of one path.
pub proof fn lemma_siblings_disjoint(p: Seq<char>, x: Seq<char>, y: Seq<char>, z: Seq<char>)
    requires
        is_child_dir(p, x),
        is_child_dir(p, y),
        x != y,
        x.is_prefix_of(z),
    ensures
        !y.is_prefix_of(z),
{
    if y.is_prefix_of(z) {
        if x.len() == y.len() {
            assert(x =~= y) by {
                assert forall|k: int| 0 <= k < x.len() implies x[k] == y[k] by {
                    assert(x[k] == z[k] && y[k] == z[k]);
                }
            }
        } else if x.len() < y.len() {
            let k = x.len() - 1;
            assert(x[k] == z[k] && y[k] == z[k]);
        } else {
            let k = y.len() - 1;
            assert(x[k] == z[k] && y[k] == z[k]);
        }
    }
}

/// The child directories of `p` hold no repeats.
pub proof fn lemma_child_dirs_distinct(p: Seq<char>, files: Seq<FileView>)
    ensures
        child_dirs(p, files).no_duplicates(),
{
    lemma_child_dirs_shape(p, files);
    let ds = child_dirs(p, files);
    assert forall|i: int, j: int| 0 <= i < ds.len() && 0 <= j < ds.len() && i != j implies ds[i]
        != ds[j] by {
        if i < j {
            assert(str_lt(ds[i], ds[j]));
            if ds[i] == ds[j] {
                lemma_str_lt_irreflexive(ds[i]);
            }
        } else {
            assert(str_lt(ds[j], ds[i]));
            if ds[i] == ds[j] {
                lemma_str_lt_irreflexive(ds[i]);
            }
        }
    }
}

/// A prefix of a prefix is a prefix.
pub proof fn lemma_prefix_transitive(a: Seq<char>, b: Seq<char>, c: Seq<char>)
    requires
        a.is_prefix_of(b),
        b.is_prefix_of(c),
    ensures
        a.is_prefix_of(c),
{
    assert forall|k: int| 0 <= k < a.len() implies a[k] == c[k] by {
        assert(a[k] == b[k]);
        assert(b[k] == c[k]);
    }
    assert(a =~= c.subrange(0, a.len() as int));
}

/// Every directory row under `q` is for a directory strictly below `q`.
pub proof fn lemma_tree_rows_dirs_below(
    files: Seq<FileView>,
    collapsed: Set<Seq<char>>,
    q: Seq<char>,
    depth: nat,
)
    ensures
        forall|i: int|
            0 <= i < tree_rows(files, collapsed, q, depth).len() ==> (#[trigger] tree_rows(
                files,
                collapsed,
                q,
                depth,
            )[i] matches NodeView::Dir { path, .. } ==> q.is_prefix_of(path) && path.len() > q.len()),
    decreases max_path_len(files) + 1 - q.len(), 1nat, 0nat,
{
    let n = child_dirs(q, files).len();
    lemma_dir_rows_dirs_below(files, collapsed, q, depth, n);
    let a = dir_rows(files, collapsed, q, depth, n);
    let fr = file_rows(level_files(q, files), depth);
    let rows = tree_rows(files, collapsed, q, depth);
    assert(rows == a + fr);
    assert forall|i: int| 0 <= i < rows.len() implies (#[trigger] rows[i] matches NodeView::Dir {
        path,
        ..
    } ==> q.is_prefix_of(path) && path.len() > q.len()) by {
        if i >= a.len() {
            assert(rows[i] == fr[i - a.len()]);
        } else {
            assert(rows[i] == a[i]);
        }
    }
}

/// Every directory row among the rows of the first `n` child directories of `q` is
/// for a directory strictly below `q`.
pub proof fn lemma_dir_rows_dirs_below(
    files: Seq<FileView>,
    collapsed: Set<Seq<char>>,
    q: Seq<char>,
    depth: nat,
    n: nat,
)
    ensures
        forall|i: int|
            0 <= i < dir_rows(files, collapsed, q, depth, n).len() ==> (#[trigger] dir_rows(
                files,
                collapsed,
                q,
                depth,
                n,
            )[i] matches NodeView::Dir { path, .. } ==> q.is_prefix_of(path) && path.len() > q.len()),
    decreases max_path_len(files) + 1 - q.len(), 0nat, n,
{
    let dirs = child_dirs(q, files);
    if n > 0 && n <= dirs.len() {
        let d = dirs[n - 1];
        lemma_child_dirs_bounds(q, files);
        lemma_child_dirs_shape(q, files);
        assert(is_child_dir(q, d));
        lemma_dir_rows_dirs_below(files, collapsed, q, depth, (n - 1) as nat);
        let a = dir_rows(files, collapsed, q, depth, (n - 1) as nat);
        let sub = if collapsed.contains(d) {
            Seq::<NodeView>::empty()
        } else {
            tree_rows(files, collapsed, d, depth + 1)
        };
        if !collapsed.contains(d) {
            lemma_tree_rows_dirs_below(files, collapsed, d, depth + 1);
        }
        let row = NodeView::Dir {
            path: d,
            name: dir_name(d),
            depth,
            collapsed: collapsed.contains(d),
        };
        let rows = dir_rows(files, collapsed, q, depth, n);
        assert(rows == a + seq![row] + sub);
        assert forall|i: int| 0 <= i < rows.len() implies (#[trigger] rows[i] matches NodeView::Dir {
            path,
            ..
        } ==> q.is_prefix_of(path) && path.len() > q.len()) by {
            if i < a.len() {
                assert(rows[i] == a[i]);
            } else if i == a.len() {
                assert(rows[i] == row);
            } else {
                assert(rows[i] == sub[i - a.len() - 1]);
                if let NodeView::Dir { path, .. } = rows[i] {
                    lemma_prefix_transitive(q, d, path);
                }
            }
        }
    }
}

/// Two collapsed sets that agree on every directory at or below `q`.
pub open spec fn agree_below(c1: Set<Seq<char>>, c2: Set<Seq<char>>, q: Seq<char>) -> bool {
    forall|x: Seq<char>| #[trigger] q.is_prefix_of(x) ==> (c1.contains(x) == c2.contains(x))
}

/// The rows under `q` depend only on which directories at or below `q` are collapsed.
pub proof fn lemma_tree_rows_agree(
    files: Seq<FileView>,
    c1: Set<Seq<char>>,
    c2: Set<Seq<char>>,
    q: Seq<char>,
    depth: nat,
)
    requires
        agree_below(c1, c2, q),
    ensures
        tree_rows(files, c1, q, depth) == tree_rows(files, c2, q, depth),
    decreases max_path_len(files) + 1 - q.len(), 1nat, 0nat,
{
    let n = child_dirs(q, files).len();
    let dirs = child_dirs(q, files);
    lemma_child_dirs_shape(q, files);
    assert forall|j: int| 0 <= j < n && j < dirs.len() implies agree_below(
        c1,
        c2,
        #[trigger] dirs[j],
    ) by {
        assert(is_child_dir(q, dirs[j]));
        assert forall|x: Seq<char>| #[trigger] dirs[j].is_prefix_of(x) implies c1.contains(x)
            == c2.contains(x) by {
            lemma_prefix_transitive(q, dirs[j], x);
        }
    }
    lemma_dir_rows_agree(files, c1, c2, q, depth, n);
}

/// The rows of the first `n` child directories of `q` depend only on which
/// directories at or below those `n` are collapsed.
pub proof fn lemma_dir_rows_agree(
    files: Seq<FileView>,
    c1: Set<Seq<char>>,
    c2: Set<Seq<char>>,
    q: Seq<char>,
    depth: nat,
    n: nat,
)
    requires
        forall|j: int| 0 <= j < n && j < child_dirs(q, files).len() ==> agree_below(
            c1,
            c2,
            #[trigger] child_dirs(q, files)[j],
        ),
    ensures
        dir_rows(files, c1, q, depth, n) == dir_rows(files, c2, q, depth, n),
    decreases max_path_len(files) + 1 - q.len(), 0nat, n,
{
    let dirs = child_dirs(q, files);
    if n > 0 && n <= dirs.len() {
        let d = dirs[n - 1];
        lemma_child_dirs_bounds(q, files);
        assert(agree_below(c1, c2, d));
        assert(d.is_prefix_of(d)) by {
            assert(d =~= d.subrange(0, d.len() as int));
        }
        assert(c1.contains(d) == c2.contains(d));
        lemma_dir_rows_agree(files, c1, c2, q, depth, (n - 1) as nat);
        lemma_tree_rows_agree(files, c1, c2, d, depth + 1);
    }
}

/// Flipping whether directory `d` is collapsed keeps its row where it was: a row
/// for `d` at index `i` of the rows under `q` is still a row for `d` at index `i`.
pub proof fn lemma_tree_rows_keep_dir(
    files: Seq<FileView>,
    c1: Set<Seq<char>>,
    c2: Set<Seq<char>>,
    d: Seq<char>,
    q: Seq<char>,
    depth: nat,
    i: int,
)
    requires
        forall|x: Seq<char>| x != d ==> (#[trigger] c1.contains(x) == c2.contains(x)),
        0 <= i < tree_rows(files, c1, q, depth).len(),
        tree_rows(files, c1, q, depth)[i] matches NodeView::Dir { path, .. } && path == d,
    ensures
        i < tree_rows(files, c2, q, depth).len(),
        tree_rows(files, c2, q, depth)[i] matches NodeView::Dir { path, .. } && path == d,
    decreases max_path_len(files) + 1 - q.len(), 1nat, 0nat,
{
    let n = child_dirs(q, files).len();
    let a1 = dir_rows(files, c1, q, depth, n);
    let a2 = dir_rows(files, c2, q, depth, n);
    let fr = file_rows(level_files(q, files), depth);
    assert(tree_rows(files, c1, q, depth) == a1 + fr);
    assert(tree_rows(files, c2, q, depth) == a2 + fr);
    if i >= a1.len() {
        assert(tree_rows(files, c1, q, depth)[i] == fr[i - a1.len()]);
    }
    assert(tree_rows(files, c1, q, depth)[i] == a1[i]);
    lemma_dir_rows_keep_dir(files, c1, c2, d, q, depth, n, i);
    assert(tree_rows(files, c2, q, depth)[i] == a2[i]);
}

/// Flipping whether directory `d` is collapsed keeps its row where it was among the
/// rows of the first `n` child directories of `q`.
pub proof fn lemma_dir_rows_keep_dir(
    files: Seq<FileView>,
    c1: Set<Seq<char>>,
    c2: Set<Seq<char>>,
    d: Seq<char>,
    q: Seq<char>,
    depth: nat,
    n: nat,
    i: int,
)
    requires
        forall|x: Seq<char>| x != d ==> (#[trigger] c1.contains(x) == c2.contains(x)),
        0 <= i < dir_rows(files, c1, q, depth, n).len(),
        dir_rows(files, c1, q, depth, n)[i] matches NodeView::Dir { path, .. } && path == d,
    ensures
        i < dir_rows(files, c2, q, depth, n).len(),
        dir_rows(files, c2, q, depth, n)[i] matches NodeView::Dir { path, .. } && path == d,
    decreases max_path_len(files) + 1 - q.len(), 0nat, n,
{
    let dirs = child_dirs(q, files);
    if n > 0 && n <= dirs.len() {
        let e = dirs[n - 1];
        lemma_child_dirs_bounds(q, files);
        lemma_child_dirs_shape(q, files);
        lemma_child_dirs_distinct(q, files);
        let a1 = dir_rows(files, c1, q, depth, (n - 1) as nat);
        let a2 = dir_rows(files, c2, q, depth, (n - 1) as nat);
        let row1 = NodeView::Dir { path: e, name: dir_name(e), depth, collapsed: c1.contains(e) };
        let row2 = NodeView::Dir { path: e, name: dir_name(e), depth, collapsed: c2.contains(e) };
        let sub1 = if c1.contains(e) {
            Seq::<NodeView>::empty()
        } else {
            tree_rows(files, c1, e, depth + 1)
        };
        let sub2 = if c2.contains(e) {
            Seq::<NodeView>::empty()
        } else {
            tree_rows(files, c2, e, depth + 1)
        };
        let rows1 = dir_rows(files, c1, q, depth, n);
        let rows2 = dir_rows(files, c2, q, depth, n);
        assert(rows1 == a1 + seq![row1] + sub1);
        assert(rows2 == a2 + seq![row2] + sub2);
        if i < a1.len() {
            assert(rows1[i] == a1[i]);
            lemma_dir_rows_keep_dir(files, c1, c2, d, q, depth, (n - 1) as nat, i);
            assert(rows2[i] == a2[i]);
        } else {
            // `d` is `e` or lies below it, so it lies below none of the earlier
            // siblings of `e`, whose rows are then the same under both sets.
            let below_e = if i == a1.len() {
                assert(rows1[i] == row1);
                assert(e.is_prefix_of(e)) by {
                    assert(e =~= e.subrange(0, e.len() as int));
                }
                true
            } else {
                assert(rows1[i] == sub1[i - a1.len() - 1]);
                lemma_tree_rows_dirs_below(files, c1, e, depth + 1);
                assert(e.is_prefix_of(d) && d.len() > e.len());
                true
            };
            assert(e.is_prefix_of(d));
            assert forall|j: int| 0 <= j < (n - 1) as nat && j < dirs.len() implies agree_below(
                c1,
                c2,
                #[trigger] dirs[j],
            ) by {
                assert(dirs[j] != e);
                assert forall|x: Seq<char>| #[trigger] dirs[j].is_prefix_of(x) implies c1.contains(x)
                    == c2.contains(x) by {
                    if x == d {
                        lemma_siblings_disjoint(q, e, dirs[j], d);
                    }
                }
            }
            lemma_dir_rows_agree(files, c1, c2, q, depth, (n - 1) as nat);
            if i == a1.len() {
                assert(rows2[i] == row2);
            } else {
                assert(d != e);
                assert(c1.contains(e) == c2.contains(e));
                lemma_tree_rows_keep_dir(files, c1, c2, d, e, depth + 1, i - a1.len() - 1);
                assert(rows2[i] == sub2[i - a1.len() - 1]);
            }
        }
    }
}

/// `insert_by_path(s, x)` holds `x` and the entries of `s`, and nothing else.
pub proof fn lemma_insert_by_path_members(s: Seq<FileView>, x: FileView)
    ensures
        insert_by_path(s, x).contains(x),
        forall|k: int| 0 <= k < s.len() ==> insert_by_path(s, x).contains(#[trigger] s[k]),
        forall|k: int|
            0 <= k < insert_by_path(s, x).len() ==> #[trigger] insert_by_path(s, x)[k] == x
                || s.contains(insert_by_path(s, x)[k]),
    decreases s.len(),
{
    let r = insert_by_path(s, x);
    if s.len() == 0 {
        assert(r[0] == x);
    } else if str_lt(x.path, s[0].path) {
        assert(r[0] == x);
        assert forall|k: int| 0 <= k < s.len() implies r.contains(#[trigger] s[k]) by {
            assert(r[k + 1] == s[k]);
        }
        assert forall|k: int| 0 <= k < r.len() implies #[trigger] r[k] == x || s.contains(r[k]) by {
            if k > 0 {
                assert(r[k] == s[k - 1]);
            }
        }
    } else {
        let r1 = insert_by_path(s.skip(1), x);
        lemma_insert_by_path_members(s.skip(1), x);
        assert(r =~= seq![s[0]] + r1);
        let j = choose|j: int| 0 <= j < r1.len() && r1[j] == x;
        assert(r[j + 1] == x);
        assert forall|k: int| 0 <= k < s.len() implies r.contains(#[trigger] s[k]) by {
            if k == 0 {
                assert(r[0] == s[0]);
            } else {
                assert(s.skip(1)[k - 1] == s[k]);
                let m = choose|m: int| 0 <= m < r1.len() && r1[m] == s.skip(1)[k - 1];
                assert(r[m + 1] == s[k]);
            }
        }
        assert forall|k: int| 0 <= k < r.len() implies #[trigger] r[k] == x || s.contains(r[k]) by {
            if k == 0 {
                assert(r[0] == s[0]);
            } else {
                assert(r[k] == r1[k - 1]);
                if r1[k - 1] != x {
                    let m = choose|m: int| 0 <= m < s.skip(1).len() && s.skip(1)[m] == r1[k - 1];
                    assert(s[m + 1] == r[k]);
                }
            }
        }
    }
}

/// The files directly in `q` are exactly the entries of `files` directly in `q`.
pub proof fn lemma_level_files_members(q: Seq<char>, files: Seq<FileView>)
    ensures
        forall|j: int|
            0 <= j < files.len() && directly_in(q, (#[trigger] files[j]).path) ==> level_files(
                q,
                files,
            ).contains(files[j]),
        forall|k: int|
            0 <= k < level_files(q, files).len() ==> files.contains(
                #[trigger] level_files(q, files)[k],
            ) && directly_in(q, level_files(q, files)[k].path),
    decreases files.len(),
{
    if files.len() > 0 {
        let front = files.drop_last();
        let f = files.last();
        lemma_level_files_members(q, front);
        let prev = level_files(q, front);
        let lv = level_files(q, files);
        if directly_in(q, f.path) {
            lemma_insert_by_path_members(prev, f);
        }
        assert forall|j: int|
            0 <= j < files.len() && directly_in(q, (#[trigger] files[j]).path) implies lv.contains(
            files[j],
        ) by {
            if j < files.len() - 1 {
                assert(front[j] == files[j]);
                assert(prev.contains(files[j]));
                if directly_in(q, f.path) {
                    let m = choose|m: int| 0 <= m < prev.len() && prev[m] == files[j];
                    assert(lv.contains(prev[m]));
                }
            }
        }
        assert forall|k: int| 0 <= k < lv.len() implies files.contains(#[trigger] lv[k])
            && directly_in(q, lv[k].path) by {
            if directly_in(q, f.path) && lv[k] == f {
                assert(files[files.len() - 1] == f);
            } else {
                assert(prev.contains(lv[k]));
                let m = choose|m: int| 0 <= m < prev.len() && prev[m] == lv[k];
                assert(front.contains(prev[m]));
                let t = choose|t: int| 0 <= t < front.len() && front[t] == prev[m];
                assert(files[t] == front[t]);
            }
        }
    }
}

/// Every file below `q` in a subdirectory has its child directory of `q` listed.
pub proof fn lemma_child_dirs_has(q: Seq<char>, files: Seq<FileView>, j: int)
    requires
        0 <= j < files.len(),
        child_dir(q, files[j].path) is Some,
    ensures
        child_dirs(q, files).contains(child_dir(q, files[j].path)->0),
    decreases files.len(),
{
    let front = files.drop_last();
    let d = child_dir(q, files[j].path)->0;
    let prev = child_dirs(q, front);
    if j == files.len() - 1 {
        lemma_insert_unique_sorted_set(prev, d);
        assert(insert_unique_sorted(prev, d).to_set().contains(d));
    } else {
        assert(front[j] == files[j]);
        lemma_child_dirs_has(q, front, j);
        match child_dir(q, files.last().path) {
            Some(e) => {
                lemma_insert_unique_sorted_set(prev, e);
                assert(prev.to_set().contains(d));
                assert(insert_unique_sorted(prev, e).to_set().contains(d));
            },
            None => {},
        }
    }
}

/// A collapsed directory at or below `q` that holds `path`: some `/` of `path` at
/// or after the end of `q` ends a collapsed directory.
pub open spec fn folded_between(collapsed: Set<Seq<char>>, q: Seq<char>, path: Seq<char>) -> bool {
    exists|k: int|
        q.len() <= k < path.len() && path[k] == '/' && #[trigger] collapsed.contains(path.take(k + 1))
}

/// `rows` has a file row with the status and path of `f`.
pub open spec fn shows_file(rows: Seq<NodeView>, f: FileView) -> bool {
    exists|i: int|
        0 <= i < rows.len() && (#[trigger] rows[i] matches NodeView::File { status, path, .. }
            && status == f.status && path == f.path)
}

/// Every file row under `q` is one of `files`, lies below `q`, and no collapsed
/// directory at or below `q` holds it.
pub proof fn lemma_tree_rows_files_sound(
    files: Seq<FileView>,
    collapsed: Set<Seq<char>>,
    q: Seq<char>,
    depth: nat,
)
    ensures
        forall|i: int|
            0 <= i < tree_rows(files, collapsed, q, depth).len() ==> (#[trigger] tree_rows(
                files,
                collapsed,
                q,
                depth,
            )[i] matches NodeView::File { status, path, .. } ==> files.contains(
                FileView { status, path },
            ) && q.is_prefix_of(path) && !folded_between(collapsed, q, path)),
    decreases max_path_len(files) + 1 - q.len(), 1nat, 0nat,
{
    let n = child_dirs(q, files).len();
    lemma_dir_rows_files_sound(files, collapsed, q, depth, n);
    lemma_level_files_members(q, files);
    let a = dir_rows(files, collapsed, q, depth, n);
    let level = level_files(q, files);
    let fr = file_rows(level, depth);
    let rows = tree_rows(files, collapsed, q, depth);
    assert(rows == a + fr);
    assert forall|i: int| 0 <= i < rows.len() implies (#[trigger] rows[i] matches NodeView::File {
        status,
        path,
        ..
    } ==> files.contains(FileView { status, path }) && q.is_prefix_of(path) && !folded_between(
        collapsed,
        q,
        path,
    )) by {
        if i >= a.len() {
            let k = i - a.len();
            assert(rows[i] == fr[k]);
            let f = level[k];
            assert(files.contains(f) && directly_in(q, f.path));
            assert(FileView { status: f.status, path: f.path } == f);
            if folded_between(collapsed, q, f.path) {
                let m = choose|m: int|
                    q.len() <= m < f.path.len() && f.path[m] == '/' && #[trigger] collapsed.contains(
                        f.path.take(m + 1),
                    );
                let rest = f.path.skip(q.len() as int);
                lemma_find_char(rest, '/');
                assert(rest[m - q.len()] == '/');
            }
        } else {
            assert(rows[i] == a[i]);
        }
    }
}

/// Every file row among the rows of the first `n` child directories of `q` is one
/// of `files`, lies below `q`, and no collapsed directory at or below `q` holds it.
pub proof fn lemma_dir_rows_files_sound(
    files: Seq<FileView>,
    collapsed: Set<Seq<char>>,
    q: Seq<char>,
    depth: nat,
    n: nat,
)
    ensures
        forall|i: int|
            0 <= i < dir_rows(files, collapsed, q, depth, n).len() ==> (#[trigger] dir_rows(
                files,
                collapsed,
                q,
                depth,
                n,
            )[i] matches NodeView::File { status, path, .. } ==> files.contains(
                FileView { status, path },
            ) && q.is_prefix_of(path) && !folded_between(collapsed, q, path)),
    decreases max_path_len(files) + 1 - q.len(), 0nat, n,
{
    let dirs = child_dirs(q, files);
    if n > 0 && n <= dirs.len() {
        let d = dirs[n - 1];
        lemma_child_dirs_bounds(q, files);
        lemma_child_dirs_shape(q, files);
        assert(is_child_dir(q, d));
        lemma_dir_rows_files_sound(files, collapsed, q, depth, (n - 1) as nat);
        let a = dir_rows(files, collapsed, q, depth, (n - 1) as nat);
        let sub = if collapsed.contains(d) {
            Seq::<NodeView>::empty()
        } else {
            tree_rows(files, collapsed, d, depth + 1)
        };
        if !collapsed.contains(d) {
            lemma_tree_rows_files_sound(files, collapsed, d, depth + 1);
        }
        let row = NodeView::Dir {
            path: d,
            name: dir_name(d),
            depth,
            collapsed: collapsed.contains(d),
        };
        let rows = dir_rows(files, collapsed, q, depth, n);
        assert(rows == a + seq![row] + sub);
        assert forall|i: int| 0 <= i < rows.len() implies (#[trigger] rows[i] matches NodeView::File {
            status,
            path,
            ..
        } ==> files.contains(FileView { status, path }) && q.is_prefix_of(path) && !folded_between(
            collapsed,
            q,
            path,
        )) by {
            if i < a.len() {
                assert(rows[i] == a[i]);
            } else if i == a.len() {
                assert(rows[i] == row);
            } else {
                assert(rows[i] == sub[i - a.len() - 1]);
                if let NodeView::File { status, path, .. } = rows[i] {
                    lemma_prefix_transitive(q, d, path);
                    if folded_between(collapsed, q, path) {
                        let m = choose|m: int|
                            q.len() <= m < path.len() && path[m] == '/' && #[trigger] collapsed.contains(
                                path.take(m + 1),
                            );
                        if m < d.len() - 1 {
                            assert(d[m] == path[m]);
                        } else if m == d.len() - 1 {
                            assert(path.take(m + 1) =~= d);
                        } else {
                            assert(folded_between(collapsed, d, path));
                        }
                    }
                }
            }
        }
    }
}

/// The rows of a longer run of child directories contain those of a shorter one.
pub proof fn lemma_dir_rows_prefix(
    files: Seq<FileView>,
    collapsed: Set<Seq<char>>,
    q: Seq<char>,
    depth: nat,
    m: nat,
    n: nat,
)
    requires
        m <= n,
    ensures
        dir_rows(files, collapsed, q, depth, m).is_prefix_of(
            dir_rows(files, collapsed, q, depth, n),
        ) || n > child_dirs(q, files).len(),
    decreases n - m,
{
    let dirs = child_dirs(q, files);
    let rm = dir_rows(files, collapsed, q, depth, m);
    if m < n && n <= dirs.len() {
        lemma_dir_rows_prefix(files, collapsed, q, depth, m, (n - 1) as nat);
        let rn1 = dir_rows(files, collapsed, q, depth, (n - 1) as nat);
        let rn = dir_rows(files, collapsed, q, depth, n);
        lemma_child_dirs_bounds(q, files);
        assert(rn1.is_prefix_of(rn)) by {
            assert(rn1 =~= rn.subrange(0, rn1.len() as int));
        }
        lemma_seq_prefix_transitive(rm, rn1, rn);
    } else if m == n {
        assert(rm =~= rm.subrange(0, rm.len() as int));
    }
}

/// A prefix of a prefix of a sequence of rows is a prefix of it.
proof fn lemma_seq_prefix_transitive(a: Seq<NodeView>, b: Seq<NodeView>, c: Seq<NodeView>)
    requires
        a.is_prefix_of(b),
        b.is_prefix_of(c),
    ensures
        a.is_prefix_of(c),
{
    assert forall|k: int| 0 <= k < a.len() implies a[k] == c[k] by {
        assert(a[k] == b[k]);
        assert(b[k] == c[k]);
    }
    assert(a =~= c.subrange(0, a.len() as int));
}

/// Every file below `q` that no collapsed directory at or below `q` holds has a row
/// under `q`.
pub proof fn lemma_tree_rows_files_complete(
    files: Seq<FileView>,
    collapsed: Set<Seq<char>>,
    q: Seq<char>,
    depth: nat,
    j: int,
)
    requires
        0 <= j < files.len(),
        q.is_prefix_of(files[j].path),
        !folded_between(collapsed, q, files[j].path),
    ensures
        shows_file(tree_rows(files, collapsed, q, depth), files[j]),
    decreases max_path_len(files) + 1 - q.len(),
{
    let f = files[j];
    let n = child_dirs(q, files).len();
    let dirs = child_dirs(q, files);
    let a = dir_rows(files, collapsed, q, depth, n);
    let level = level_files(q, files);
    let fr = file_rows(level, depth);
    let rows = tree_rows(files, collapsed, q, depth);
    assert(rows == a + fr);
    if directly_in(q, f.path) {
        lemma_level_files_members(q, files);
        assert(level.contains(f));
        let k = choose|k: int| 0 <= k < level.len() && level[k] == f;
        assert(rows[a.len() + k] == fr[k]);
    } else {
        let d = child_dir(q, f.path)->0;
        lemma_child_dirs_has(q, files, j);
        lemma_child_dirs_bounds(q, files);
        lemma_child_dirs_shape(q, files);
        let m = choose|m: int| 0 <= m < dirs.len() && dirs[m] == d;
        let rest = f.path.skip(q.len() as int);
        let i = find_char(rest, '/');
        lemma_find_char(rest, '/');
        assert(d == q + rest.take(i) + seq!['/']);
        assert(d =~= f.path.take(q.len() + i + 1));
        assert(d.is_prefix_of(f.path)) by {
            assert(d =~= f.path.subrange(0, d.len() as int));
        }
        assert(f.path[q.len() + i] == '/');
        assert(!collapsed.contains(d)) by {
            if collapsed.contains(d) {
                assert(collapsed.contains(f.path.take(q.len() + i + 1)));
            }
        }
        assert(!folded_between(collapsed, d, f.path));
        lemma_tree_rows_files_complete(files, collapsed, d, depth + 1, j);
        let sub = tree_rows(files, collapsed, d, depth + 1);
        let a1 = dir_rows(files, collapsed, q, depth, m as nat);
        let row = NodeView::Dir { path: d, name: dir_name(d), depth, collapsed: false };
        let am = dir_rows(files, collapsed, q, depth, (m + 1) as nat);
        assert(am == a1 + seq![row] + sub);
        let t = choose|t: int|
            0 <= t < sub.len() && (#[trigger] sub[t] matches NodeView::File { status, path, .. }
                && status == f.status && path == f.path);
        assert(am[a1.len() + 1 + t] == sub[t]);
        lemma_dir_rows_prefix(files, collapsed, q, depth, (m + 1) as nat, n);
        assert(a[a1.len() + 1 + t] == am[a1.len() + 1 + t]);
        assert(rows[a1.len() + 1 + t] == a[a1.len() + 1 + t]);
    }
}

} // verus!
