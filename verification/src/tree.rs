use vstd::prelude::*;

use crate::text::{
    basename, basename_chars, char_rows, chars_of, copy_range, find_char, lemma_find_char,
    lemma_find_char_is, occurs_at, string_of,
};
use crate::app::App;
use crate::types::{file_views, node_views, FileTreeNode, FileView, NodeView, PathSet, SvnFile};

verus! {

/// Lexicographic order of character sequences by code point, which for UTF-8 text is
/// the order `String`'s `Ord` gives.
pub open spec fn str_lt(a: Seq<char>, b: Seq<char>) -> bool
    decreases a.len(),
{
    if a.len() == 0 {
        b.len() > 0
    } else if b.len() == 0 {
        false
    } else if a[0] != b[0] {
        (a[0] as u32) < (b[0] as u32)
    } else {
        str_lt(a.skip(1), b.skip(1))
    }
}

/// Whether `a` comes strictly before `b` (see `str_lt`).
pub fn chars_lt(a: &[char], b: &[char]) -> (res: bool)
    ensures
        res == str_lt(a@, b@),
{
    let mut i: usize = 0;
    assert(a@.skip(0) == a@ && b@.skip(0) == b@);
    while i < a.len() && i < b.len()
        invariant
            i <= a.len(),
            i <= b.len(),
            str_lt(a@, b@) == str_lt(a@.skip(i as int), b@.skip(i as int)),
        decreases a.len() - i,
    {
        assert(a@.skip(i as int)[0] == a@[i as int]);
        assert(b@.skip(i as int)[0] == b@[i as int]);
        if a[i] != b[i] {
            return (a[i] as u32) < (b[i] as u32);
        }
        assert(a@.skip(i as int).skip(1) =~= a@.skip(i + 1));
        assert(b@.skip(i as int).skip(1) =~= b@.skip(i + 1));
        i += 1;
    }
    i == a.len() && i < b.len()
}

/// `s` with `x` added at its place in increasing order, unless `x` is already there.
pub open spec fn insert_unique_sorted(s: Seq<Seq<char>>, x: Seq<char>) -> Seq<Seq<char>>
    decreases s.len(),
{
    if s.len() == 0 {
        seq![x]
    } else if s[0] == x {
        s
    } else if str_lt(x, s[0]) {
        seq![x] + s
    } else {
        seq![s[0]] + insert_unique_sorted(s.skip(1), x)
    }
}

/// `s` with `x` added after every entry whose path does not come after `x`'s.
pub open spec fn insert_by_path(s: Seq<FileView>, x: FileView) -> Seq<FileView>
    decreases s.len(),
{
    if s.len() == 0 {
        seq![x]
    } else if str_lt(x.path, s[0].path) {
        seq![x] + s
    } else {
        seq![s[0]] + insert_by_path(s.skip(1), x)
    }
}

/// The immediate child directory of `prefix` (with its trailing `/`) that holds `path`,
/// when `path` lies below `prefix` in a subdirectory.
pub open spec fn child_dir(prefix: Seq<char>, path: Seq<char>) -> Option<Seq<char>> {
    if prefix.is_prefix_of(path) {
        let rest = path.skip(prefix.len() as int);
        let i = find_char(rest, '/');
        if i < rest.len() {
            Some(prefix + rest.take(i) + seq!['/'])
        } else {
            None
        }
    } else {
        None
    }
}

/// Whether `path` lies directly in `prefix`, not in a subdirectory of it.
pub open spec fn directly_in(prefix: Seq<char>, path: Seq<char>) -> bool {
    prefix.is_prefix_of(path) && child_dir(prefix, path) is None
}

/// The distinct child directories of `prefix` that hold some of `files`, in increasing order.
pub open spec fn child_dirs(prefix: Seq<char>, files: Seq<FileView>) -> Seq<Seq<char>>
    decreases files.len(),
{
    if files.len() == 0 {
        Seq::empty()
    } else {
        let prev = child_dirs(prefix, files.drop_last());
        match child_dir(prefix, files.last().path) {
            Some(d) => insert_unique_sorted(prev, d),
            None => prev,
        }
    }
}

/// The files directly in `prefix`, ordered by path; files with equal paths keep their order.
pub open spec fn level_files(prefix: Seq<char>, files: Seq<FileView>) -> Seq<FileView>
    decreases files.len(),
{
    if files.len() == 0 {
        Seq::empty()
    } else {
        let prev = level_files(prefix, files.drop_last());
        if directly_in(prefix, files.last().path) {
            insert_by_path(prev, files.last())
        } else {
            prev
        }
    }
}

/// `s` without its trailing `/` characters.
pub open spec fn trim_end_slashes(s: Seq<char>) -> Seq<char>
    decreases s.len(),
{
    if s.len() > 0 && s.last() == '/' {
        trim_end_slashes(s.drop_last())
    } else {
        s
    }
}

/// The name shown for directory `dir` (its last component, without the slash).
pub open spec fn dir_name(dir: Seq<char>) -> Seq<char> {
    basename(trim_end_slashes(dir))
}

/// The length of the longest path among `files`.
pub open spec fn max_path_len(files: Seq<FileView>) -> nat
    decreases files.len(),
{
    if files.len() == 0 {
        0
    } else {
        let m = max_path_len(files.drop_last());
        if files.last().path.len() > m {
            files.last().path.len()
        } else {
            m
        }
    }
}

/// The file rows for `level` at nesting depth `depth`.
pub open spec fn file_rows(level: Seq<FileView>, depth: nat) -> Seq<NodeView> {
    level.map_values(
        |f: FileView| NodeView::File { status: f.status, path: f.path, name: basename(f.path), depth },
    )
}

/// The visible rows for the files under `prefix`: its child directories first, in
/// increasing order, each followed by its own rows unless it is collapsed; then the
/// files directly in `prefix`, ordered by path.
pub open spec fn tree_rows(
    files: Seq<FileView>,
    collapsed: Set<Seq<char>>,
    prefix: Seq<char>,
    depth: nat,
) -> Seq<NodeView>
    decreases max_path_len(files) + 1 - prefix.len(), 1nat, 0nat,
{
    dir_rows(files, collapsed, prefix, depth, child_dirs(prefix, files).len())
        + file_rows(level_files(prefix, files), depth)
}

/// The rows of the first `n` child directories of `prefix` (see `tree_rows`).
pub open spec fn dir_rows(
    files: Seq<FileView>,
    collapsed: Set<Seq<char>>,
    prefix: Seq<char>,
    depth: nat,
    n: nat,
) -> Seq<NodeView>
    decreases max_path_len(files) + 1 - prefix.len(), 0nat, n,
{
    let dirs = child_dirs(prefix, files);
    if n == 0 || n > dirs.len() {
        Seq::empty()
    } else {
        let d = dirs[n - 1];
        proof {
            lemma_child_dirs_bounds(prefix, files);
        }
        let row = NodeView::Dir {
            path: d,
            name: dir_name(d),
            depth,
            collapsed: collapsed.contains(d),
        };
        dir_rows(files, collapsed, prefix, depth, (n - 1) as nat) + seq![row] + if collapsed.contains(
            d,
        ) {
            Seq::empty()
        } else {
            tree_rows(files, collapsed, d, depth + 1)
        }
    }
}

/// Every entry of `insert_unique_sorted(s, x)` is `x` or an entry of `s`.
pub proof fn lemma_insert_unique_sorted_members(s: Seq<Seq<char>>, x: Seq<char>)
    ensures
        forall|k: int|
            0 <= k < insert_unique_sorted(s, x).len() ==> #[trigger] insert_unique_sorted(
                s,
                x,
            )[k] == x || s.contains(insert_unique_sorted(s, x)[k]),
    decreases s.len(),
{
    if s.len() > 0 && s[0] != x && !str_lt(x, s[0]) {
        lemma_insert_unique_sorted_members(s.skip(1), x);
        let r = insert_unique_sorted(s, x);
        assert forall|k: int| 0 <= k < r.len() implies #[trigger] r[k] == x || s.contains(r[k]) by {
            if k == 0 {
                assert(s[0] == r[0]);
            } else {
                let r1 = insert_unique_sorted(s.skip(1), x);
                assert(r[k] == r1[k - 1]);
                if r1[k - 1] != x {
                    let j = choose|j: int| 0 <= j < s.skip(1).len() && s.skip(1)[j] == r1[k - 1];
                    assert(s[j + 1] == r[k]);
                }
            }
        }
    } else if s.len() > 0 {
        let r = insert_unique_sorted(s, x);
        assert forall|k: int| 0 <= k < r.len() implies #[trigger] r[k] == x || s.contains(r[k]) by {
            if s[0] != x && k > 0 {
                assert(s[k - 1] == r[k]);
            } else if s[0] == x {
                assert(s[k] == r[k]);
            }
        }
    }
}

/// `insert_unique_sorted(s, x)` holds the entries of `s` and `x`.
pub proof fn lemma_insert_unique_sorted_set(s: Seq<Seq<char>>, x: Seq<char>)
    ensures
        insert_unique_sorted(s, x).to_set() == s.to_set().insert(x),
    decreases s.len(),
{
    let r = insert_unique_sorted(s, x);
    if s.len() == 0 {
        assert(r.to_set() =~= s.to_set().insert(x)) by {
            assert(r[0] == x);
        }
    } else if s[0] == x {
        assert(s.to_set().contains(s[0]));
        assert(r.to_set() =~= s.to_set().insert(x));
    } else if str_lt(x, s[0]) {
        assert forall|y: Seq<char>| #![auto] r.to_set().contains(y) <==> s.to_set().insert(x).contains(y) by {
            if r.to_set().contains(y) {
                let k = choose|k: int| 0 <= k < r.len() && r[k] == y;
                if k > 0 {
                    assert(s[k - 1] == y);
                }
            }
            if s.to_set().contains(y) {
                let k = choose|k: int| 0 <= k < s.len() && s[k] == y;
                assert(r[k + 1] == y);
            }
            if y == x {
                assert(r[0] == y);
            }
        }
        assert(r.to_set() =~= s.to_set().insert(x));
    } else {
        let r1 = insert_unique_sorted(s.skip(1), x);
        lemma_insert_unique_sorted_set(s.skip(1), x);
        assert(r =~= seq![s[0]] + r1);
        assert forall|y: Seq<char>| #![auto] r.to_set().contains(y) <==> s.to_set().insert(x).contains(y) by {
            if r.to_set().contains(y) {
                let k = choose|k: int| 0 <= k < r.len() && r[k] == y;
                if k == 0 {
                    assert(s[0] == y);
                } else {
                    assert(r1[k - 1] == y);
                    assert(r1.to_set().contains(y));
                    if y != x {
                        assert(s.skip(1).to_set().contains(y));
                        let j = choose|j: int| 0 <= j < s.skip(1).len() && s.skip(1)[j] == y;
                        assert(s[j + 1] == y);
                    }
                }
            }
            if s.to_set().contains(y) {
                let k = choose|k: int| 0 <= k < s.len() && s[k] == y;
                if k == 0 {
                    assert(r[0] == y);
                } else {
                    assert(s.skip(1)[k - 1] == y);
                    assert(s.skip(1).to_set().contains(y));
                    assert(r1.to_set().contains(y));
                    let j = choose|j: int| 0 <= j < r1.len() && r1[j] == y;
                    assert(r[j + 1] == y);
                }
            }
            if y == x {
                assert(r1.to_set().contains(y));
                let j = choose|j: int| 0 <= j < r1.len() && r1[j] == y;
                assert(r[j + 1] == y);
            }
        }
        assert(r.to_set() =~= s.to_set().insert(x));
    }
}

/// The longest path is at least as long as each path.
pub proof fn lemma_max_path_len(files: Seq<FileView>, k: int)
    requires
        0 <= k < files.len(),
    ensures
        files[k].path.len() <= max_path_len(files),
    decreases files.len(),
{
    if k < files.len() - 1 {
        lemma_max_path_len(files.drop_last(), k);
    }
}

/// Each child directory of `prefix` is longer than `prefix` and no longer than the
/// longest path.
pub proof fn lemma_child_dirs_bounds(prefix: Seq<char>, files: Seq<FileView>)
    ensures
        forall|k: int|
            0 <= k < child_dirs(prefix, files).len() ==> prefix.len() < (#[trigger] child_dirs(
                prefix,
                files,
            )[k]).len() <= max_path_len(files),
    decreases files.len(),
{
    if files.len() > 0 {
        let prev = child_dirs(prefix, files.drop_last());
        lemma_child_dirs_bounds(prefix, files.drop_last());
        assert(max_path_len(files.drop_last()) <= max_path_len(files));
        let path = files.last().path;
        lemma_max_path_len(files, files.len() - 1);
        match child_dir(prefix, path) {
            Some(d) => {
                let rest = path.skip(prefix.len() as int);
                lemma_find_char(rest, '/');
                assert(d.len() <= path.len());
                lemma_insert_unique_sorted_members(prev, d);
                let r = insert_unique_sorted(prev, d);
                assert forall|k: int| 0 <= k < r.len() implies prefix.len() < (
                #[trigger] r[k]).len() <= max_path_len(files) by {
                    if r[k] != d {
                        let j = choose|j: int| 0 <= j < prev.len() && prev[j] == r[k];
                        assert(prefix.len() < prev[j].len() <= max_path_len(files.drop_last()));
                    }
                }
            },
            None => {},
        }
    }
}

/// Adds `x` to the increasing, repeat-free list `v` (see `insert_unique_sorted`).
fn insert_dir(v: &mut Vec<Vec<char>>, x: Vec<char>)
    ensures
        char_rows(final(v)@) == insert_unique_sorted(char_rows(old(v)@), x@),
{
    let ghost s = char_rows(v@);
    let mut i: usize = 0;
    assert(s.skip(0) == s);
    assert(s.take(0) + insert_unique_sorted(s.skip(0), x@) =~= insert_unique_sorted(s, x@));
    while i < v.len()
        invariant
            i <= v.len(),
            v@ == old(v)@,
            s == char_rows(v@),
            insert_unique_sorted(s, x@) == s.take(i as int) + insert_unique_sorted(
                s.skip(i as int),
                x@,
            ),
        decreases v.len() - i,
    {
        let ghost rest = s.skip(i as int);
        assert(rest[0] == v@[i as int]@);
        if crate::text::chars_eq(&v[i], &x) {
            assert(insert_unique_sorted(rest, x@) == rest);
            assert(s.take(i as int) + rest =~= s);
            return;
        }
        if chars_lt(&x, &v[i]) {
            assert(insert_unique_sorted(rest, x@) == seq![x@] + rest);
            v.insert(i, x);
            assert(char_rows(v@) =~= s.take(i as int) + (seq![x@] + rest));
            return;
        }
        assert(rest.skip(1) =~= s.skip(i + 1));
        assert(insert_unique_sorted(rest, x@) == seq![rest[0]] + insert_unique_sorted(
            rest.skip(1),
            x@,
        ));
        assert(s.take(i + 1) =~= s.take(i as int) + seq![rest[0]]);
        i += 1;
    }
    assert(s.skip(i as int) =~= Seq::<Seq<char>>::empty());
    v.push(x);
    assert(char_rows(v@) =~= s.take(i as int) + seq![x@]);
}

/// The files at positions `idx` of `files`.
pub open spec fn files_at(files: Seq<FileView>, idx: Seq<usize>) -> Seq<FileView> {
    idx.map_values(|k: usize| files[k as int])
}

/// `paths` holds the paths of the files at positions `level` of `files`.
pub open spec fn level_paths_ok(files: Seq<SvnFile>, level: Seq<usize>, paths: Seq<Vec<char>>) -> bool {
    &&& level.len() == paths.len()
    &&& forall|m: int|
        #![trigger paths[m]]
        #![trigger level[m]]
        0 <= m < level.len() ==> level[m] < files.len() && paths[m]@ == files[level[m] as int].path@
}

/// Adds file `k` (whose path is `path`) to the path-ordered list `level` (see
/// `insert_by_path`); `paths` holds the paths of the files in `level`.
fn insert_level_file(
    files: &[SvnFile],
    level: &mut Vec<usize>,
    paths: &mut Vec<Vec<char>>,
    k: usize,
    path: Vec<char>,
)
    requires
        k < files.len(),
        path@ == files@[k as int].path@,
        level_paths_ok(files@, old(level)@, old(paths)@),
    ensures
        files_at(file_views(files@), final(level)@) == insert_by_path(
            files_at(file_views(files@), old(level)@),
            file_views(files@)[k as int],
        ),
        level_paths_ok(files@, final(level)@, final(paths)@),
{
    let ghost fv = file_views(files@);
    let ghost s = files_at(fv, level@);
    let ghost x = fv[k as int];
    let mut i: usize = 0;
    assert(s.skip(0) == s);
    assert(s.take(0) + insert_by_path(s.skip(0), x) =~= insert_by_path(s, x));
    while i < level.len()
        invariant
            i <= level.len(),
            level@ == old(level)@,
            paths@ == old(paths)@,
            level_paths_ok(files@, level@, paths@),
            s == files_at(fv, level@),
            k < files.len(),
            x == fv[k as int],
            fv == file_views(files@),
            path@ == x.path,
            insert_by_path(s, x) == s.take(i as int) + insert_by_path(s.skip(i as int), x),
        decreases level.len() - i,
    {
        let ghost rest = s.skip(i as int);
        assert(rest[0] == fv[level@[i as int] as int]);
        if chars_lt(&path, &paths[i]) {
            assert(insert_by_path(rest, x) == seq![x] + rest);
            let ghost old_level = level@;
            let ghost old_paths = paths@;
            level.insert(i, k);
            paths.insert(i, path);
            assert(files_at(fv, level@) =~= s.take(i as int) + (seq![x] + rest));
            assert forall|m: int| 0 <= m < level@.len() implies level@[m] < files@.len()
                && paths@[m]@ == files@[level@[m] as int].path@ by {
                if m > i {
                    assert(paths@[m] == old_paths[m - 1]);
                    assert(level@[m] == old_level[m - 1]);
                } else if m < i {
                    assert(paths@[m] == old_paths[m]);
                    assert(level@[m] == old_level[m]);
                }
            }
            assert(level@.len() == paths@.len());
            assert(level_paths_ok(files@, level@, paths@));
            return;
        }
        assert(insert_by_path(rest, x) == seq![rest[0]] + insert_by_path(rest.skip(1), x));
        assert(rest.skip(1) =~= s.skip(i + 1));
        assert(s.take(i + 1) =~= s.take(i as int) + seq![rest[0]]);
        i += 1;
    }
    assert(s.skip(i as int) =~= Seq::<FileView>::empty());
    let ghost old_level = level@;
    let ghost old_paths = paths@;
    level.push(k);
    paths.push(path);
    assert(files_at(fv, level@) =~= s.take(i as int) + seq![x]);
    assert forall|m: int| 0 <= m < level@.len() implies level@[m] < files@.len()
        && paths@[m]@ == files@[level@[m] as int].path@ by {
        if m < old_level.len() {
            assert(paths@[m] == old_paths[m]);
            assert(level@[m] == old_level[m]);
        }
    }
    assert(level@.len() == paths@.len());
    assert(level_paths_ok(files@, level@, paths@));
}


/// The name shown for directory `dir` (see `dir_name`).
fn dir_name_chars(dir: &[char]) -> (res: Vec<char>)
    ensures
        res@ == dir_name(dir@),
{
    let mut end = dir.len();
    assert(dir@.take(end as int) == dir@);
    while end > 0 && dir[end - 1] == '/'
        invariant
            end <= dir.len(),
            trim_end_slashes(dir@) == trim_end_slashes(dir@.take(end as int)),
        decreases end,
    {
        assert(dir@.take(end as int).drop_last() =~= dir@.take(end - 1));
        end -= 1;
    }
    let t = copy_range(dir, 0, end);
    assert(t@ == dir@.take(end as int));
    basename_chars(&t)
}

impl App {
    /// Appends to `result` the visible rows for the files of `file_list` under `prefix`
    /// (see `tree_rows`): directories first, in increasing order, each followed by its
    /// own rows unless it is in `collapsed_dirs`; then the files directly in `prefix`,
    /// ordered by path.
    pub fn build_tree_for_prefix(
        prefix: &str,
        depth: usize,
        file_list: &[SvnFile],
        collapsed_dirs: &PathSet,
        result: &mut Vec<FileTreeNode>,
    )
        requires
            depth + max_path_len(file_views(file_list@)) <= usize::MAX + prefix@.len(),
        ensures
            node_views(final(result)@) == node_views(old(result)@) + tree_rows(
                file_views(file_list@),
                collapsed_dirs@,
                prefix@,
                depth as nat,
            ),
        decreases max_path_len(file_views(file_list@)) + 1 - prefix@.len(),
    {
        let ghost fv = file_views(file_list@);
        let p = chars_of(prefix);
        let mut subdirs: Vec<Vec<char>> = Vec::new();
        let mut level: Vec<usize> = Vec::new();
        let mut level_paths: Vec<Vec<char>> = Vec::new();
        let mut i: usize = 0;
        assert(char_rows(subdirs@) =~= Seq::<Seq<char>>::empty());
        assert(files_at(fv, level@) =~= Seq::<FileView>::empty());
        assert(fv.take(0) =~= Seq::<FileView>::empty());
        while i < file_list.len()
            invariant
                i <= file_list.len(),
                p@ == prefix@,
                fv == file_views(file_list@),
                char_rows(subdirs@) == child_dirs(p@, fv.take(i as int)),
                files_at(fv, level@) == level_files(p@, fv.take(i as int)),
                level_paths_ok(file_list@, level@, level_paths@),
            decreases file_list.len() - i,
        {
            let ghost before = fv.take(i as int);
            assert(fv.take(i + 1).drop_last() =~= before);
            assert(fv.take(i + 1).last() == file_list@[i as int]@);
            let pc = chars_of(file_list[i].path.as_str());
            if occurs_at(&pc, 0, &p) {
                let ghost rest = pc@.skip(p.len() as int);
                assert(p@.is_prefix_of(pc@));
                let mut j = p.len();
                while j < pc.len() && pc[j] != '/'
                    invariant
                        p.len() <= j <= pc.len(),
                        forall|q: int| p.len() <= q < j ==> pc@[q] != '/',
                    decreases pc.len() - j,
                {
                    j += 1;
                }
                proof {
                    assert forall|q: int| 0 <= q < j - p.len() implies rest[q] != '/' by {
                        assert(rest[q] == pc@[q + p.len()]);
                    }
                    if j < pc.len() {
                        assert(rest[j - p.len()] == pc@[j as int]);
                    }
                    lemma_find_char_is(rest, '/', j - p.len());
                }
                if j < pc.len() {
                    let d = copy_range(&pc, 0, j + 1);
                    assert(d@ =~= p@ + rest.take(j - p.len()) + seq!['/']);
                    insert_dir(&mut subdirs, d);
                } else {
                    let ghost old_level = level@;
                    insert_level_file(file_list, &mut level, &mut level_paths, i, pc);
                }
            } else {
                assert(!p@.is_prefix_of(pc@));
            }
            i += 1;
        }
        assert(fv.take(file_list.len() as int) =~= fv);
        let ghost start = node_views(result@);
        let ghost collapsed = collapsed_dirs@;
        assert(start + dir_rows(fv, collapsed, p@, depth as nat, 0) =~= start);
        proof {
            lemma_child_dirs_bounds(p@, fv);
        }
        let mut k: usize = 0;
        while k < subdirs.len()
            invariant
                k <= subdirs.len(),
                p@ == prefix@,
                fv == file_views(file_list@),
                collapsed == collapsed_dirs@,
                char_rows(subdirs@) == child_dirs(p@, fv),
                forall|q: int|
                    0 <= q < child_dirs(p@, fv).len() ==> p@.len() < (
                    #[trigger] child_dirs(p@, fv)[q]).len() <= max_path_len(fv),
                depth + max_path_len(fv) <= usize::MAX + p@.len(),
                node_views(result@) == start + dir_rows(fv, collapsed, p@, depth as nat, k as nat),
            decreases subdirs.len() - k,
        {
            let ghost d = child_dirs(p@, fv)[k as int];
            assert(subdirs@[k as int]@ == d);
            let dstr = string_of(&subdirs[k]);
            let name = string_of(&dir_name_chars(&subdirs[k]));
            let is_collapsed = collapsed_dirs.contains(dstr.as_str());
            let ghost mid = node_views(result@);
            result.push(
                FileTreeNode::Dir { path: dstr.clone(), name, depth, collapsed: is_collapsed },
            );
            assert(node_views(result@) =~= mid.push(
                NodeView::Dir { path: d, name: dir_name(d), depth: depth as nat, collapsed: collapsed.contains(d) },
            ));
            if !is_collapsed {
                App::build_tree_for_prefix(dstr.as_str(), depth + 1, file_list, collapsed_dirs, result);
            }
            proof {
                let row = NodeView::Dir {
                    path: d,
                    name: dir_name(d),
                    depth: depth as nat,
                    collapsed: collapsed.contains(d),
                };
                let sub = if collapsed.contains(d) {
                    Seq::<NodeView>::empty()
                } else {
                    tree_rows(fv, collapsed, d, depth as nat + 1)
                };
                assert(dir_rows(fv, collapsed, p@, depth as nat, (k + 1) as nat) == dir_rows(
                    fv,
                    collapsed,
                    p@,
                    depth as nat,
                    k as nat,
                ) + seq![row] + sub);
                assert(node_views(result@) =~= start + dir_rows(
                    fv,
                    collapsed,
                    p@,
                    depth as nat,
                    (k + 1) as nat,
                ));
            }
            k += 1;
        }
        let ghost level_fv = level_files(p@, fv);
        let ghost after_dirs = node_views(result@);
        let mut m: usize = 0;
        assert(after_dirs + file_rows(level_fv.take(0), depth as nat) =~= after_dirs);
        while m < level.len()
            invariant
                m <= level.len(),
                fv == file_views(file_list@),
                level_fv == files_at(fv, level@),
                level_paths_ok(file_list@, level@, level_paths@),
                node_views(result@) == after_dirs + file_rows(level_fv.take(m as int), depth as nat),
            decreases level.len() - m,
        {
            let f = &file_list[level[m]];
            let name = string_of(&basename_chars(&level_paths[m]));
            let ghost mid = node_views(result@);
            result.push(
                FileTreeNode::File {
                    status: f.status.clone(),
                    path: f.path.clone(),
                    name,
                    depth,
                },
            );
            assert(level_fv[m as int] == f@);
            assert(level_paths@[m as int]@ == f.path@);
            let ghost row = NodeView::File {
                status: f.status@,
                path: f.path@,
                name: basename(f.path@),
                depth: depth as nat,
            };
            assert(node_views(result@) =~= mid.push(row));
            assert(level_fv.take(m + 1) =~= level_fv.take(m as int).push(f@));
            assert(file_rows(level_fv.take(m + 1), depth as nat) =~= file_rows(
                level_fv.take(m as int),
                depth as nat,
            ).push(row));
            assert(node_views(result@) =~= after_dirs + file_rows(level_fv.take(m + 1), depth as nat));
            m += 1;
        }
        assert(level_fv.take(m as int) =~= level_fv);
    }
}


/// When no path is longer than `b`, neither is the longest.
pub proof fn lemma_max_path_len_bounded(files: Seq<FileView>, b: nat)
    requires
        forall|j: int| 0 <= j < files.len() ==> (#[trigger] files[j]).path.len() <= b,
    ensures
        max_path_len(files) <= b,
    decreases files.len(),
{
    if files.len() > 0 {
        assert forall|j: int| 0 <= j < files.drop_last().len() implies (
        #[trigger] files.drop_last()[j]).path.len() <= b by {
            assert(files.drop_last()[j] == files[j]);
        }
        lemma_max_path_len_bounded(files.drop_last(), b);
    }
}

}
