use vstd::prelude::*;

use crate::text::string_views;

verus! {

/// Which field the cursor is in when the commit popup is open.
#[derive(Debug, PartialEq, Eq, Clone, Copy, Structural)]
pub enum CommitField {
    Message,
    Username,
    Password,
}

/// The panel or popup that has the keyboard focus.
#[derive(Debug, PartialEq, Eq, Clone, Copy, Structural)]
pub enum ActiveWindow {
    ChangedFiles,
    Branches,
    Revisions,
    Diff,
    Commit,
    ConfirmDelete,
    ConfirmRevert,
    ConfirmIgnore,
    Help,
}

/// One line of `svn status`: the status character and the path.
pub struct SvnFile {
    pub status: String,
    pub path: String,
}

/// A changed file, as plain character sequences.
pub struct FileView {
    pub status: Seq<char>,
    pub path: Seq<char>,
}

impl View for SvnFile {
    type V = FileView;

    open spec fn view(&self) -> FileView {
        FileView { status: self.status@, path: self.path@ }
    }
}

/// The views of a sequence of changed files.
pub open spec fn file_views(files: Seq<SvnFile>) -> Seq<FileView> {
    files.map_values(|f: SvnFile| f@)
}

/// One entry of `svn log`.
pub struct SvnRevision {
    pub revision: String,
    pub author: String,
    pub date: String,
    pub message: String,
}

/// A log entry, as plain character sequences.
pub struct RevisionView {
    pub revision: Seq<char>,
    pub author: Seq<char>,
    pub date: Seq<char>,
    pub message: Seq<char>,
}

impl View for SvnRevision {
    type V = RevisionView;

    open spec fn view(&self) -> RevisionView {
        RevisionView {
            revision: self.revision@,
            author: self.author@,
            date: self.date@,
            message: self.message@,
        }
    }
}

/// One file changed in a revision (a line of `svn diff --summarize`).
pub struct SvnRevisionFile {
    pub status: String,
    pub path: String,
}

impl View for SvnRevisionFile {
    type V = FileView;

    open spec fn view(&self) -> FileView {
        FileView { status: self.status@, path: self.path@ }
    }
}

/// A single entry in the visible file-tree list.
#[derive(Debug)]
pub enum FileTreeNode {
    /// A directory row that can be folded/unfolded.
    Dir {
        /// Full directory path including trailing slash (e.g. `"src/"`).
        path: String,
        /// Just the directory name (e.g. `"src"`).
        name: String,
        /// Nesting depth (0 = top level).
        depth: usize,
        /// Whether the directory's children are currently hidden.
        collapsed: bool,
    },
    /// A file row.
    File {
        /// SVN status character (e.g. `"M"`, `"A"`, `"D"`).
        status: String,
        /// Full file path (e.g. `"src/app.rs"`).
        path: String,
        /// Just the file name (e.g. `"app.rs"`).
        name: String,
        /// Nesting depth (0 = top level).
        depth: usize,
    },
}

/// A tree row, as plain values.
pub enum NodeView {
    Dir { path: Seq<char>, name: Seq<char>, depth: nat, collapsed: bool },
    File { status: Seq<char>, path: Seq<char>, name: Seq<char>, depth: nat },
}

impl View for FileTreeNode {
    type V = NodeView;

    open spec fn view(&self) -> NodeView {
        match self {
            FileTreeNode::Dir { path, name, depth, collapsed } => NodeView::Dir {
                path: path@,
                name: name@,
                depth: *depth as nat,
                collapsed: *collapsed,
            },
            FileTreeNode::File { status, path, name, depth } => NodeView::File {
                status: status@,
                path: path@,
                name: name@,
                depth: *depth as nat,
            },
        }
    }
}

/// The views of a sequence of tree rows.
pub open spec fn node_views(nodes: Seq<FileTreeNode>) -> Seq<NodeView> {
    nodes.map_values(|n: FileTreeNode| n@)
}

impl Clone for FileTreeNode {
    fn clone(&self) -> (res: Self)
        ensures
            res@ == self@,
    {
        match self {
            FileTreeNode::Dir { path, name, depth, collapsed } => FileTreeNode::Dir {
                path: path.clone(),
                name: name.clone(),
                depth: *depth,
                collapsed: *collapsed,
            },
            FileTreeNode::File { status, path, name, depth } => FileTreeNode::File {
                status: status.clone(),
                path: path.clone(),
                name: name.clone(),
                depth: *depth,
            },
        }
    }
}

/// The selection of a list panel: the index of the highlighted row, if any.
pub struct ListState {
    selected: Option<usize>,
}

impl View for ListState {
    type V = Option<usize>;

    closed spec fn view(&self) -> Option<usize> {
        self.selected
    }
}

impl ListState {
    /// Two list states that highlight the same row are the same.
    pub proof fn lemma_same_selection(a: ListState, b: ListState)
        requires
            a@ == b@,
        ensures
            a == b,
    {
    }

    /// The index of the highlighted row.
    pub fn selected(&self) -> (res: Option<usize>)
        ensures
            res == self@,
    {
        self.selected
    }

    /// Highlights row `index` (or nothing).
    pub fn select(&mut self, index: Option<usize>)
        ensures
            final(self)@ == index,
    {
        self.selected = index;
    }
}

impl Default for ListState {
    fn default() -> (res: Self)
        ensures
            res@ == None::<usize>,
    {
        ListState { selected: None }
    }
}

/// Foreground colour of a diff line.
#[derive(Debug, PartialEq, Eq, Clone, Copy, Structural)]
pub enum LineColor {
    Green,
    Red,
    Cyan,
    Yellow,
}

/// One line of the diff panel with its style.
pub struct DiffLine {
    pub text: String,
    pub fg: Option<LineColor>,
    pub bold: bool,
}

/// A diff line, as plain values.
pub struct DiffLineView {
    pub text: Seq<char>,
    pub fg: Option<LineColor>,
    pub bold: bool,
}

impl View for DiffLine {
    type V = DiffLineView;

    open spec fn view(&self) -> DiffLineView {
        DiffLineView { text: self.text@, fg: self.fg, bold: self.bold }
    }
}

/// The views of a sequence of diff lines.
pub open spec fn diff_views(lines: Seq<DiffLine>) -> Seq<DiffLineView> {
    lines.map_values(|l: DiffLine| l@)
}

/// A set of paths with no path held twice.
pub struct PathSet {
    items: Vec<String>,
}

impl PathSet {
    /// The paths in the order they were added.
    pub closed spec fn paths(&self) -> Seq<Seq<char>> {
        string_views(self.items@)
    }

    #[verifier::type_invariant]
    spec fn no_repeats(&self) -> bool {
        self.paths().no_duplicates()
    }

    /// The set of paths.
    pub open spec fn set(&self) -> Set<Seq<char>> {
        self.paths().to_set()
    }

    /// An empty set.
    pub fn new() -> (res: Self)
        ensures
            res.paths() == Seq::<Seq<char>>::empty(),
            res@ == Set::<Seq<char>>::empty(),
    {
        let res = PathSet { items: Vec::new() };
        assert(res.paths() =~= Seq::<Seq<char>>::empty());
        res
    }

    /// The position of `p` among the paths, if it is there.
    fn position(&self, p: &String) -> (res: Option<usize>)
        ensures
            match res {
                Some(i) => i < self.paths().len() && self.paths()[i as int] == p@,
                None => !self.paths().contains(p@),
            },
    {
        let mut i: usize = 0;
        while i < self.items.len()
            invariant
                i <= self.items.len(),
                forall|j: int| 0 <= j < i ==> self.paths()[j] != p@,
            decreases self.items.len() - i,
        {
            if self.items[i] == *p {
                return Some(i);
            }
            i += 1;
        }
        None
    }

    /// Whether `p` is in the set.
    pub fn contains(&self, p: &str) -> (res: bool)
        ensures
            res == self@.contains(p@),
    {
        let q = p.to_owned();
        self.position(&q).is_some()
    }

    /// Adds `p`; returns whether it was not there before.
    pub fn insert(&mut self, p: String) -> (res: bool)
        ensures
            final(self)@ == old(self)@.insert(p@),
            res == !old(self)@.contains(p@),
    {
        proof {
            use_type_invariant(&*self);
        }
        match self.position(&p) {
            Some(_) => {
                assert(self@ =~= self@.insert(p@));
                false
            },
            None => {
                let ghost before = self.paths();
                let mut items: Vec<String> = Vec::new();
                std::mem::swap(&mut items, &mut self.items);
                items.push(p);
                let ghost after = string_views(items@);
                assert(after =~= before.push(p@));
                proof {
                    assert forall|a: int, b: int|
                        0 <= a < b < after.len() implies after[a] != after[b] by {
                        if b == before.len() {
                            assert(before.contains(before[a]));
                        }
                    }
                }
                self.items = items;
                assert(self.paths() == after);
                assert forall|x: Seq<char>| #![auto] self@.contains(x) <==> before.to_set().insert(
                    p@,
                ).contains(x) by {
                    if self@.contains(x) {
                        let k = choose|k: int| 0 <= k < after.len() && after[k] == x;
                        if k < before.len() {
                            assert(before[k] == x);
                        }
                    }
                    if before.to_set().contains(x) {
                        let k = choose|k: int| 0 <= k < before.len() && before[k] == x;
                        assert(after[k] == x);
                    }
                    if x == p@ {
                        assert(after[before.len() as int] == x);
                    }
                }
                assert(self@ =~= before.to_set().insert(p@));
                true
            },
        }
    }

    /// Removes `p`; returns whether it was there.
    pub fn remove(&mut self, p: &str) -> (res: bool)
        ensures
            final(self)@ == old(self)@.remove(p@),
            res == old(self)@.contains(p@),
    {
        proof {
            use_type_invariant(&*self);
        }
        let q = p.to_owned();
        match self.position(&q) {
            Some(i) => {
                let ghost before = self.paths();
                let mut items: Vec<String> = Vec::new();
                std::mem::swap(&mut items, &mut self.items);
                items.remove(i);
                let ghost after = string_views(items@);
                assert(after =~= before.take(i as int) + before.skip(i + 1));
                proof {
                    assert forall|a: int, b: int|
                        0 <= a < b < after.len() implies after[a] != after[b] by {
                        let a0 = if a < i { a } else { a + 1 };
                        let b0 = if b < i { b } else { b + 1 };
                        assert(after[a] == before[a0] && after[b] == before[b0]);
                    }
                }
                self.items = items;
                assert(self.paths() == after);
                proof {
                    assert forall|x: Seq<char>| self@.contains(x) <==> before.to_set().remove(
                        p@,
                    ).contains(x) by {
                        if self@.contains(x) {
                            let k = choose|k: int| 0 <= k < self.paths().len() && self.paths()[k] == x;
                            if k < i {
                                assert(before[k] == x);
                            } else {
                                assert(before[k + 1] == x);
                            }
                        }
                        if before.to_set().remove(p@).contains(x) {
                            let k = choose|k: int| 0 <= k < before.len() && before[k] == x;
                            if k < i {
                                assert(self.paths()[k] == x);
                            } else {
                                assert(self.paths()[k - 1] == x);
                            }
                        }
                    }
                    assert(self@ =~= before.to_set().remove(p@));
                }
                true
            },
            None => {
                assert(self@ =~= self@.remove(p@));
                false
            },
        }
    }

    /// Whether the set is empty.
    pub fn is_empty(&self) -> (res: bool)
        ensures
            res == (self@ == Set::<Seq<char>>::empty()),
    {
        proof {
            if self.items.len() > 0 {
                assert(self@.contains(self.paths()[0]));
            } else {
                assert(self@ =~= Set::<Seq<char>>::empty());
            }
        }
        self.items.len() == 0
    }

    /// The number of paths.
    pub fn len(&self) -> (res: usize)
        ensures
            res == self@.len(),
    {
        proof {
            use_type_invariant(self);
            self.paths().unique_seq_to_set();
        }
        self.items.len()
    }

    /// Removes every path.
    pub fn clear(&mut self)
        ensures
            final(self)@ == Set::<Seq<char>>::empty(),
            final(self).paths() == Seq::<Seq<char>>::empty(),
    {
        self.items = Vec::new();
        assert(self.paths() =~= Seq::<Seq<char>>::empty());
    }

    /// The paths, each once, in the order they were added.
    pub fn to_vec(&self) -> (res: Vec<String>)
        ensures
            string_views(res@) == self.paths(),
            self.paths().no_duplicates(),
            self.paths().to_set() == self@,
    {
        proof {
            use_type_invariant(self);
        }
        let mut res: Vec<String> = Vec::new();
        let mut i: usize = 0;
        while i < self.items.len()
            invariant
                i <= self.items.len(),
                string_views(res@) == self.paths().take(i as int),
            decreases self.items.len() - i,
        {
            let c = self.items[i].clone();
            assert(c@ == self.paths()[i as int]);
            let ghost before = res@;
            res.push(c);
            assert(res@ == before.push(c));
            assert(string_views(res@) =~= string_views(before).push(c@));
            assert(self.paths().take(i + 1) =~= self.paths().take(i as int).push(c@));
            i += 1;
        }
        assert(self.paths().take(i as int) =~= self.paths());
        res
    }
}

impl View for PathSet {
    type V = Set<Seq<char>>;

    open spec fn view(&self) -> Set<Seq<char>> {
        self.set()
    }
}

}
