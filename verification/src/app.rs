use vstd::prelude::*;

use crate::tree::{max_path_len, tree_rows};
use crate::types::{
    diff_views, file_views, node_views, ActiveWindow, CommitField, DiffLine, DiffLineView, FileView,
    FileTreeNode, ListState, NodeView, PathSet, SvnFile, SvnRevision, SvnRevisionFile,
};

verus! {

/// How many more log entries each "load more" asks for.
pub const REVISION_LOAD_BATCH_SIZE: usize = 50;

/// The state of the lazySVN window: the panels, their selections, the diff being
/// shown, the commit being composed and the confirmations that are pending.
pub struct App {
    pub active_window: ActiveWindow,
    /// Window that was active before the help popup was opened; used to
    /// restore focus when help is closed.
    pub prev_window: Option<ActiveWindow>,
    pub file_list: Vec<SvnFile>,
    pub file_list_state: ListState,
    /// Flat list of tree entries currently visible (respects collapsed dirs).
    pub visible_items: Vec<FileTreeNode>,
    /// Set of directory paths (with trailing `/`) that are currently collapsed.
    pub collapsed_dirs: PathSet,
    /// Set of file paths that the user has marked for the next commit.
    pub selected_files: PathSet,
    pub branch_list: Vec<String>,
    pub branch_list_state: ListState,
    pub current_diff: Vec<DiffLine>,
    pub diff_scroll: u16,
    /// The working-copy file path whose diff is currently shown, or `None`
    /// when the diff shows a revision or nothing.
    pub current_diff_file: Option<String>,
    pub revision_list: Vec<SvnRevision>,
    pub revision_log_limit: usize,
    pub revision_list_state: ListState,
    /// Files changed in the currently selected revision.
    pub revision_files: Vec<SvnRevisionFile>,
    pub revision_file_list_state: ListState,
    pub working_copy_revision: Option<String>,
    pub repository_url: Option<String>,
    /// Commit message being composed in the commit popup.
    pub commit_message: String,
    /// Byte offset of the cursor within `commit_message`, at a character boundary.
    pub commit_message_cursor: usize,
    /// Optional SVN username for the commit.
    pub commit_username: String,
    /// Optional SVN password for the commit; cleared once the commit completes.
    pub commit_password: String,
    /// Which field is currently active in the commit popup.
    pub commit_active_field: CommitField,
    /// Targets pending y/n confirmation before `svn delete` runs.
    pub delete_targets: Vec<String>,
    /// Targets pending y/n confirmation before `svn revert` runs.
    pub revert_targets: Vec<String>,
    /// Backup created before the last `svn delete`: the backup directory and the
    /// deleted paths; cleared after undo.
    pub last_backup: Option<(String, Vec<String>)>,
    /// Ignore patterns; files matching any of these are hidden from the Files panel.
    pub ignore_patterns: Vec<String>,
    /// The file path pending y/n confirmation before being added to the ignore file.
    pub ignore_target: Option<String>,
}

/// The placeholder shown in the diff panel before anything is selected.
pub open spec fn initial_diff() -> Seq<DiffLineView> {
    seq![DiffLineView { text: "Select a file to see diff"@, fg: None, bold: false }]
}

/// The index a "next" move selects in a list of `len` rows, wrapping at the end.
pub open spec fn next_index(sel: Option<usize>, len: nat) -> usize {
    match sel {
        Some(i) => if i >= len - 1 {
            0
        } else {
            (i + 1) as usize
        },
        None => 0,
    }
}

/// The index a "previous" move selects in a list of `len` rows, wrapping at the start.
pub open spec fn previous_index(sel: Option<usize>, len: nat) -> usize {
    match sel {
        Some(i) => if i == 0 {
            (len - 1) as usize
        } else {
            (i - 1) as usize
        },
        None => 0,
    }
}

/// Whether `row` is a file row.
pub open spec fn is_file_row(row: NodeView) -> bool {
    row is File
}

impl App {
    /// The visible tree rows for the current files and collapsed directories.
    pub open spec fn expected_rows(&self) -> Seq<NodeView> {
        tree_rows(file_views(self.file_list@), self.collapsed_dirs@, Seq::empty(), 0)
    }

    /// A fresh state with empty lists and nothing selected, as the window starts
    /// before any `svn` output is read.
    pub fn test_new() -> (app: App)
        ensures
            app.active_window == ActiveWindow::ChangedFiles,
            app.prev_window is None,
            app.file_list@.len() == 0,
            app.file_list_state@ is None,
            app.visible_items@.len() == 0,
            app.collapsed_dirs@ == Set::<Seq<char>>::empty(),
            app.selected_files@ == Set::<Seq<char>>::empty(),
            app.branch_list@.len() == 0,
            app.branch_list_state@ is None,
            diff_views(app.current_diff@) == initial_diff(),
            app.diff_scroll == 0,
            app.current_diff_file is None,
            app.revision_list@.len() == 0,
            app.revision_log_limit == REVISION_LOAD_BATCH_SIZE,
            app.revision_list_state@ is None,
            app.revision_files@.len() == 0,
            app.revision_file_list_state@ is None,
            app.working_copy_revision is None,
            app.repository_url is None,
            app.commit_message@.len() == 0,
            app.commit_message_cursor == 0,
            app.commit_username@.len() == 0,
            app.commit_password@.len() == 0,
            app.commit_active_field == CommitField::Message,
            app.delete_targets@.len() == 0,
            app.revert_targets@.len() == 0,
            app.last_backup is None,
            app.ignore_patterns@.len() == 0,
            app.ignore_target is None,
    {
        let placeholder = DiffLine {
            text: String::from_str("Select a file to see diff"),
            fg: None,
            bold: false,
        };
        let mut current_diff: Vec<DiffLine> = Vec::new();
        current_diff.push(placeholder);
        let app = App {
            active_window: ActiveWindow::ChangedFiles,
            prev_window: None,
            file_list: Vec::new(),
            file_list_state: ListState::default(),
            visible_items: Vec::new(),
            collapsed_dirs: PathSet::new(),
            selected_files: PathSet::new(),
            branch_list: Vec::new(),
            branch_list_state: ListState::default(),
            current_diff,
            diff_scroll: 0,
            current_diff_file: None,
            revision_list: Vec::new(),
            revision_log_limit: REVISION_LOAD_BATCH_SIZE,
            revision_list_state: ListState::default(),
            revision_files: Vec::new(),
            revision_file_list_state: ListState::default(),
            working_copy_revision: None,
            repository_url: None,
            commit_message: String::new(),
            commit_message_cursor: 0,
            commit_username: String::new(),
            commit_password: String::new(),
            commit_active_field: CommitField::Message,
            delete_targets: Vec::new(),
            revert_targets: Vec::new(),
            last_backup: None,
            ignore_patterns: Vec::new(),
            ignore_target: None,
        };
        assert(diff_views(app.current_diff@) =~= initial_diff());
        app
    }

    /// `next` is this state with the help window open and the window that was
    /// active saved.
    pub open spec fn help_opened(self, next: App) -> bool {
        &&& next.active_window == ActiveWindow::Help
        &&& next.prev_window == Some(self.active_window)
        &&& next == (App { active_window: next.active_window, prev_window: next.prev_window, ..self })
    }

    /// `next` is this state with help closed: the saved window (the Files panel when
    /// none was saved) is active again and nothing is saved any more.
    pub open spec fn help_closed(self, next: App) -> bool {
        &&& next.active_window == match self.prev_window {
            Some(w) => w,
            None => ActiveWindow::ChangedFiles,
        }
        &&& next.prev_window is None
        &&& next == (App { active_window: next.active_window, prev_window: next.prev_window, ..self })
    }

    /// Open the help window, saving the current active window so it can be
    /// restored when help is closed.
    pub fn open_help(&mut self)
        ensures
            old(self).help_opened(*final(self)),
    {
        self.prev_window = Some(self.active_window);
        self.active_window = ActiveWindow::Help;
    }

    /// Close the help window and restore the previously active window
    /// (the Files panel when none was saved).
    pub fn close_help(&mut self)
        ensures
            old(self).help_closed(*final(self)),
    {
        self.active_window = match self.prev_window.take() {
            Some(w) => w,
            None => ActiveWindow::ChangedFiles,
        };
    }
}


/// The selection after the list it points into has `len` rows: cleared when the list
/// is empty, moved to the last row when it points past the end.
pub open spec fn clamp_selection(sel: Option<usize>, len: nat) -> Option<usize> {
    if len == 0 {
        None
    } else {
        match sel {
            Some(s) => if s >= len {
                Some((len - 1) as usize)
            } else {
                Some(s)
            },
            None => None,
        }
    }
}

/// `set` with `x` added when it is not there and removed when it is.
pub open spec fn toggled(set: Set<Seq<char>>, x: Seq<char>) -> Set<Seq<char>> {
    if set.contains(x) {
        set.remove(x)
    } else {
        set.insert(x)
    }
}

/// The paths of `files` that lie under directory `dir` (those starting with `dir`),
/// in file-list order.
pub open spec fn paths_under(dir: Seq<char>, files: Seq<FileView>) -> Seq<Seq<char>>
    decreases files.len(),
{
    if files.len() == 0 {
        Seq::empty()
    } else {
        let prev = paths_under(dir, files.drop_last());
        if dir.is_prefix_of(files.last().path) {
            prev.push(files.last().path)
        } else {
            prev
        }
    }
}

impl App {
    /// The rows shown are those of the current files and collapsed directories.
    pub open spec fn rows_current(&self) -> bool {
        node_views(self.visible_items@) == self.expected_rows()
    }

    /// The row under the cursor of the Files panel, if any.
    pub open spec fn hovered_row(&self) -> Option<NodeView> {
        match self.file_list_state@ {
            Some(i) => if i < self.visible_items@.len() {
                Some(self.visible_items@[i as int]@)
            } else {
                None
            },
            None => None,
        }
    }

    /// The directory under the cursor of the Files panel, if a directory row is there.
    pub open spec fn hovered_dir(&self) -> Option<Seq<char>> {
        match self.hovered_row() {
            Some(NodeView::Dir { path, .. }) => Some(path),
            _ => None,
        }
    }

    /// The paths an action on the hovered row covers: the file itself, or every
    /// changed file under the hovered directory.
    pub open spec fn hovered_targets(&self) -> Seq<Seq<char>> {
        match self.hovered_row() {
            Some(NodeView::File { path, .. }) => seq![path],
            Some(NodeView::Dir { path, .. }) => paths_under(path, file_views(self.file_list@)),
            None => Seq::empty(),
        }
    }

    /// The paths a delete or revert applies to: the marked files when any are
    /// marked, otherwise the hovered ones.
    pub open spec fn action_targets(&self) -> Seq<Seq<char>> {
        if self.selected_files@ == Set::<Seq<char>>::empty() {
            self.hovered_targets()
        } else {
            self.selected_files.paths()
        }
    }

    /// Rebuild `visible_items` from `file_list` while honouring `collapsed_dirs`.
    /// The current selection index is clamped so it stays in-bounds.
    pub fn rebuild_visible_items(&mut self)
        ensures
            node_views(final(self).visible_items@) == old(self).expected_rows(),
            final(self).file_list_state@ == clamp_selection(
                old(self).file_list_state@,
                final(self).visible_items@.len(),
            ),
            final(self).file_list_state@ matches Some(s) ==> s < final(self).visible_items@.len(),
            final(self).rows_current(),
            *final(self) == (App {
                visible_items: final(self).visible_items,
                file_list_state: final(self).file_list_state,
                ..*old(self)
            }),
    {
        let ghost fv = file_views(self.file_list@);
        let mut i: usize = 0;
        while i < self.file_list.len()
            invariant
                i <= self.file_list.len(),
                fv == file_views(self.file_list@),
                forall|j: int| 0 <= j < i ==> (#[trigger] fv[j]).path.len() <= usize::MAX,
            decreases self.file_list.len() - i,
        {
            let cs = crate::text::chars_of(self.file_list[i].path.as_str());
            assert(cs@.len() == cs.len());
            i += 1;
        }
        proof {
            crate::tree::lemma_max_path_len_bounded(fv, usize::MAX as nat);
            reveal_strlit("");
        }
        let mut result: Vec<FileTreeNode> = Vec::new();
        App::build_tree_for_prefix("", 0, &self.file_list, &self.collapsed_dirs, &mut result);
        assert(node_views(result@) =~= self.expected_rows());
        self.visible_items = result;
        let len = self.visible_items.len();
        if len == 0 {
            self.file_list_state.select(None);
        } else if let Some(sel) = self.file_list_state.selected() {
            if sel >= len {
                self.file_list_state.select(Some(len - 1));
            }
        }
    }
}


impl App {
    /// `next` is this state with the hovered directory folded or unfolded: its
    /// collapsed mark flips, the rows are rebuilt for the new collapsed set and the
    /// cursor is kept in bounds. When no directory row is hovered nothing changes.
    pub open spec fn folder_toggled(self, next: App) -> bool {
        match self.hovered_row() {
            Some(NodeView::Dir { path, .. }) => {
                &&& next.collapsed_dirs@ == toggled(self.collapsed_dirs@, path)
                &&& node_views(next.visible_items@) == tree_rows(
                    file_views(self.file_list@),
                    next.collapsed_dirs@,
                    Seq::empty(),
                    0,
                )
                &&& next.file_list_state@ == clamp_selection(
                    self.file_list_state@,
                    next.visible_items@.len(),
                )
                &&& next == (App {
                    visible_items: next.visible_items,
                    file_list_state: next.file_list_state,
                    collapsed_dirs: next.collapsed_dirs,
                    ..self
                })
            },
            _ => next == self,
        }
    }

    /// Toggle the collapsed state of the directory that is currently selected,
    /// then rebuild the visible items. Does nothing when a file row or no row is
    /// selected.
    pub fn toggle_folder(&mut self)
        ensures
            old(self).folder_toggled(*final(self)),
    {
        if let Some(i) = self.file_list_state.selected() {
            if i < self.visible_items.len() {
                let mut dir: Option<String> = None;
                match &self.visible_items[i] {
                    FileTreeNode::Dir { path, .. } => {
                        dir = Some(path.clone());
                    },
                    FileTreeNode::File { .. } => {},
                }
                if let Some(path) = dir {
                    if self.collapsed_dirs.contains(path.as_str()) {
                        self.collapsed_dirs.remove(path.as_str());
                    } else {
                        self.collapsed_dirs.insert(path);
                    }
                    self.rebuild_visible_items();
                }
            }
        }
    }

    /// The paths of the changed files under directory `dir`, in file-list order.
    fn files_under(&self, dir: &str) -> (res: Vec<String>)
        ensures
            crate::text::string_views(res@) == paths_under(dir@, file_views(self.file_list@)),
    {
        let ghost fv = file_views(self.file_list@);
        let d = crate::text::chars_of(dir);
        let mut res: Vec<String> = Vec::new();
        let mut i: usize = 0;
        assert(fv.take(0) =~= Seq::<FileView>::empty());
        assert(crate::text::string_views(res@) =~= Seq::<Seq<char>>::empty());
        while i < self.file_list.len()
            invariant
                i <= self.file_list.len(),
                d@ == dir@,
                fv == file_views(self.file_list@),
                crate::text::string_views(res@) == paths_under(dir@, fv.take(i as int)),
            decreases self.file_list.len() - i,
        {
            assert(fv.take(i + 1).drop_last() =~= fv.take(i as int));
            assert(fv.take(i + 1).last() == self.file_list@[i as int]@);
            let pc = crate::text::chars_of(self.file_list[i].path.as_str());
            let ghost before = res@;
            if crate::text::occurs_at(&pc, 0, &d) {
                res.push(self.file_list[i].path.clone());
                assert(crate::text::string_views(res@) =~= crate::text::string_views(before).push(
                    pc@,
                ));
            }
            i += 1;
        }
        assert(fv.take(i as int) =~= fv);
        res
    }

    /// The marks after toggling the hovered row: a file's own mark flips; for a
    /// directory, its changed files are all unmarked when all were marked, and all
    /// marked otherwise.
    pub open spec fn marks_after_toggle(self) -> Set<Seq<char>> {
        match self.hovered_row() {
            Some(NodeView::File { path, .. }) => toggled(self.selected_files@, path),
            Some(NodeView::Dir { path, .. }) => {
                let children = paths_under(path, file_views(self.file_list@)).to_set();
                if children.subset_of(self.selected_files@) {
                    self.selected_files@.difference(children)
                } else {
                    self.selected_files@.union(children)
                }
            },
            None => self.selected_files@,
        }
    }

    /// `next` is this state with the hovered row's marks toggled (see
    /// `marks_after_toggle`) and nothing else changed.
    pub open spec fn selection_toggled(self, next: App) -> bool {
        &&& next.selected_files@ == self.marks_after_toggle()
        &&& next == (App { selected_files: next.selected_files, ..self })
    }

    /// Toggle whether the currently selected item is marked.
    /// - For a file: toggle that single file.
    /// - For a directory: toggle all files under that directory prefix.
    ///   If all children are already selected, they are deselected; otherwise all are
    ///   selected.
    pub fn toggle_file_selection(&mut self)
        ensures
            old(self).selection_toggled(*final(self)),
    {
        let ghost start = self.selected_files@;
        if let Some(i) = self.file_list_state.selected() {
            if i < self.visible_items.len() {
                let node = self.visible_items[i].clone();
                match node {
                    FileTreeNode::File { path, .. } => {
                        if self.selected_files.contains(path.as_str()) {
                            self.selected_files.remove(path.as_str());
                        } else {
                            self.selected_files.insert(path);
                        }
                    },
                    FileTreeNode::Dir { path: dir_path, .. } => {
                        let children = self.files_under(dir_path.as_str());
                        let ghost ch = crate::text::string_views(children@);
                        if children.len() == 0 {
                            assert(ch.to_set() =~= Set::<Seq<char>>::empty());
                            assert(start.difference(ch.to_set()) =~= start);
                            return;
                        }
                        let mut all_selected = true;
                        let mut j: usize = 0;
                        while j < children.len()
                            invariant
                                j <= children.len(),
                                ch == crate::text::string_views(children@),
                                all_selected == (forall|q: int|
                                    0 <= q < j ==> start.contains(#[trigger] ch[q])),
                                self.selected_files@ == start,
                                *self == (App { selected_files: self.selected_files, ..*old(self) }),
                            decreases children.len() - j,
                        {
                            assert(ch[j as int] == children@[j as int]@);
                            if !self.selected_files.contains(children[j].as_str()) {
                                all_selected = false;
                            }
                            j += 1;
                        }
                        assert(all_selected == ch.to_set().subset_of(start)) by {
                            if !all_selected {
                                let q = choose|q: int| 0 <= q < ch.len() && !start.contains(ch[q]);
                                assert(ch.to_set().contains(ch[q]));
                            }
                        }
                        let mut j: usize = 0;
                        while j < children.len()
                            invariant
                                j <= children.len(),
                                ch == crate::text::string_views(children@),
                                all_selected ==> self.selected_files@ == start.difference(
                                    ch.take(j as int).to_set(),
                                ),
                                !all_selected ==> self.selected_files@ == start.union(
                                    ch.take(j as int).to_set(),
                                ),
                                *self == (App { selected_files: self.selected_files, ..*old(self) }),
                            decreases children.len() - j,
                        {
                            assert(ch.take(j + 1) =~= ch.take(j as int).push(ch[j as int]));
                            assert(ch.take(0) =~= Seq::<Seq<char>>::empty());
                            proof {
                                crate::text::lemma_to_set_push(ch.take(j as int), ch[j as int]);
                            }
                            assert(ch[j as int] == children@[j as int]@);
                            if all_selected {
                                self.selected_files.remove(children[j].as_str());
                            } else {
                                self.selected_files.insert(children[j].clone());
                            }
                            assert(start.difference(ch.take(j + 1).to_set()) =~= start.difference(
                                ch.take(j as int).to_set(),
                            ).remove(ch[j as int]));
                            assert(start.union(ch.take(j + 1).to_set()) =~= start.union(
                                ch.take(j as int).to_set(),
                            ).insert(ch[j as int]));
                            j += 1;
                        }
                        assert(ch.take(j as int) =~= ch);
                    },
                }
            }
        }
    }
}


impl App {
    /// The paths a delete or revert applies to (see `action_targets`).
    fn marked_or_hovered_targets(&self) -> (res: Vec<String>)
        ensures
            crate::text::string_views(res@) == self.action_targets(),
    {
        if self.selected_files.is_empty() {
            if let Some(i) = self.file_list_state.selected() {
                if i < self.visible_items.len() {
                    match &self.visible_items[i] {
                        FileTreeNode::File { path, .. } => {
                            let mut v: Vec<String> = Vec::new();
                            v.push(path.clone());
                            assert(crate::text::string_views(v@) =~= seq![path@]);
                            return v;
                        },
                        FileTreeNode::Dir { path, .. } => {
                            return self.files_under(path.as_str());
                        },
                    }
                }
            }
            let v: Vec<String> = Vec::new();
            assert(crate::text::string_views(v@) =~= Seq::<Seq<char>>::empty());
            v
        } else {
            self.selected_files.to_vec()
        }
    }

    /// Prepare `svn delete` for the marked files, or the hovered file or folder when
    /// none is marked, and ask for confirmation. Does nothing when that is no path.
    pub fn svn_delete_marked(&mut self)
        ensures
            old(self).action_targets().len() == 0 ==> *final(self) == *old(self),
            old(self).action_targets().len() > 0 ==> {
                &&& crate::text::string_views(final(self).delete_targets@) == old(
                    self,
                ).action_targets()
                &&& final(self).active_window == ActiveWindow::ConfirmDelete
                &&& *final(self) == (App {
                    delete_targets: final(self).delete_targets,
                    active_window: final(self).active_window,
                    ..*old(self)
                })
            },
    {
        let targets = self.marked_or_hovered_targets();
        if targets.len() == 0 {
            return;
        }
        self.delete_targets = targets;
        self.active_window = ActiveWindow::ConfirmDelete;
    }

    /// Prepare `svn revert` for the marked files, or the hovered file or folder when
    /// none is marked, and ask for confirmation. Does nothing when that is no path.
    pub fn svn_revert_marked(&mut self)
        ensures
            old(self).action_targets().len() == 0 ==> *final(self) == *old(self),
            old(self).action_targets().len() > 0 ==> {
                &&& crate::text::string_views(final(self).revert_targets@) == old(
                    self,
                ).action_targets()
                &&& final(self).active_window == ActiveWindow::ConfirmRevert
                &&& *final(self) == (App {
                    revert_targets: final(self).revert_targets,
                    active_window: final(self).active_window,
                    ..*old(self)
                })
            },
    {
        let targets = self.marked_or_hovered_targets();
        if targets.len() == 0 {
            return;
        }
        self.revert_targets = targets;
        self.active_window = ActiveWindow::ConfirmRevert;
    }

    /// If the hovered item is a file, make it the ignore target and ask for
    /// confirmation; otherwise do nothing.
    pub fn ignore_current_file(&mut self)
        ensures
            match old(self).hovered_row() {
                Some(NodeView::File { path, .. }) => {
                    &&& final(self).ignore_target matches Some(t) && t@ == path
                    &&& final(self).active_window == ActiveWindow::ConfirmIgnore
                    &&& *final(self) == (App {
                        ignore_target: final(self).ignore_target,
                        active_window: final(self).active_window,
                        ..*old(self)
                    })
                },
                _ => *final(self) == *old(self),
            },
    {
        if let Some(i) = self.file_list_state.selected() {
            if i < self.visible_items.len() {
                let mut target: Option<String> = None;
                match &self.visible_items[i] {
                    FileTreeNode::File { path, .. } => {
                        target = Some(path.clone());
                    },
                    FileTreeNode::Dir { .. } => {},
                }
                if target.is_some() {
                    self.ignore_target = target;
                    self.active_window = ActiveWindow::ConfirmIgnore;
                }
            }
        }
    }

    /// `next` is this state with the Files cursor on row `i` and nothing else changed.
    pub open spec fn file_cursor_at(self, next: App, i: usize) -> bool {
        &&& next.file_list_state@ == Some(i)
        &&& next == (App { file_list_state: next.file_list_state, ..self })
    }

    /// What moving the Files cursor down makes of this state: with no rows nothing
    /// changes; otherwise the cursor goes to `next_index`, and `diff_due` tells
    /// whether that row is a file.
    pub open spec fn next_file_step(self, next: App, diff_due: bool) -> bool {
        if self.visible_items@.len() == 0 {
            next == self && !diff_due
        } else {
            let i = next_index(self.file_list_state@, self.visible_items@.len());
            &&& self.file_cursor_at(next, i)
            &&& diff_due == is_file_row(self.visible_items@[i as int]@)
        }
    }

    /// What moving the Files cursor up makes of this state: with no rows nothing
    /// changes; otherwise the cursor goes to `previous_index`, and `diff_due` tells
    /// whether that row is a file.
    pub open spec fn previous_file_step(self, next: App, diff_due: bool) -> bool {
        if self.visible_items@.len() == 0 {
            next == self && !diff_due
        } else {
            let i = previous_index(self.file_list_state@, self.visible_items@.len());
            &&& self.file_cursor_at(next, i)
            &&& diff_due == (i < self.visible_items@.len() && is_file_row(
                self.visible_items@[i as int]@,
            ))
        }
    }

    /// Move the Files cursor down one row, wrapping to the top. Returns whether the
    /// row now under the cursor is a file, whose diff is then due.
    pub fn next_file(&mut self) -> (diff_due: bool)
        ensures
            old(self).next_file_step(*final(self), diff_due),
    {
        let len = self.visible_items.len();
        if len == 0 {
            return false;
        }
        let i = match self.file_list_state.selected() {
            Some(i) => if i >= len - 1 {
                0
            } else {
                i + 1
            },
            None => 0,
        };
        self.file_list_state.select(Some(i));
        match &self.visible_items[i] {
            FileTreeNode::File { .. } => true,
            FileTreeNode::Dir { .. } => false,
        }
    }

    /// Move the Files cursor up one row, wrapping to the bottom. Returns whether the
    /// row now under the cursor is a file, whose diff is then due.
    pub fn previous_file(&mut self) -> (diff_due: bool)
        ensures
            old(self).previous_file_step(*final(self), diff_due),
    {
        let len = self.visible_items.len();
        if len == 0 {
            return false;
        }
        let i = match self.file_list_state.selected() {
            Some(i) => if i == 0 {
                len - 1
            } else {
                i - 1
            },
            None => 0,
        };
        self.file_list_state.select(Some(i));
        if i >= len {
            return false;
        }
        match &self.visible_items[i] {
            FileTreeNode::File { .. } => true,
            FileTreeNode::Dir { .. } => false,
        }
    }

    /// `next` is this state with the Branches cursor on row `i` and nothing else
    /// changed.
    pub open spec fn branch_cursor_at(self, next: App, i: usize) -> bool {
        &&& next.branch_list_state@ == Some(i)
        &&& next == (App { branch_list_state: next.branch_list_state, ..self })
    }

    /// What moving the Branches cursor down makes of this state: the next row,
    /// wrapping to the top (the top when nothing was selected).
    pub open spec fn next_branch_step(self, next: App) -> bool {
        self.branch_cursor_at(
            next,
            match self.branch_list_state@ {
                Some(i) => if i >= self.branch_list@.len() - 1 {
                    0usize
                } else {
                    (i + 1) as usize
                },
                None => 0usize,
            },
        )
    }

    /// What moving the Branches cursor up makes of this state: the previous row,
    /// wrapping to the bottom (the top when nothing was selected).
    pub open spec fn previous_branch_step(self, next: App) -> bool {
        self.branch_cursor_at(
            next,
            match self.branch_list_state@ {
                Some(i) => if i == 0 {
                    if self.branch_list@.len() == 0 {
                        0usize
                    } else {
                        (self.branch_list@.len() - 1) as usize
                    }
                } else {
                    (i - 1) as usize
                },
                None => 0usize,
            },
        )
    }

    /// Move the Branches cursor down one row, wrapping to the top.
    pub fn next_branch(&mut self)
        ensures
            old(self).next_branch_step(*final(self)),
    {
        let i = match self.branch_list_state.selected() {
            Some(i) => {
                if i >= self.branch_list.len().saturating_sub(1) {
                    0
                } else {
                    i + 1
                }
            },
            None => 0,
        };
        self.branch_list_state.select(Some(i));
    }

    /// Move the Branches cursor up one row, wrapping to the bottom.
    pub fn previous_branch(&mut self)
        ensures
            old(self).previous_branch_step(*final(self)),
    {
        let i = match self.branch_list_state.selected() {
            Some(i) => {
                if i == 0 {
                    self.branch_list.len().saturating_sub(1)
                } else {
                    i - 1
                }
            },
            None => 0,
        };
        self.branch_list_state.select(Some(i));
    }

    /// What moving the Revisions cursor down makes of this state: with no revisions
    /// nothing changes (`moved` is false); otherwise the cursor goes to `next_index`.
    pub open spec fn next_revision_step(self, next: App, moved: bool) -> bool {
        &&& moved == (self.revision_list@.len() > 0)
        &&& !moved ==> next == self
        &&& moved ==> {
            &&& next.revision_list_state@ == Some(
                next_index(self.revision_list_state@, self.revision_list@.len()),
            )
            &&& next == (App { revision_list_state: next.revision_list_state, ..self })
        }
    }

    /// What moving the Revisions cursor up makes of this state: with no revisions
    /// nothing changes (`moved` is false); otherwise the cursor goes to
    /// `previous_index`.
    pub open spec fn previous_revision_step(self, next: App, moved: bool) -> bool {
        &&& moved == (self.revision_list@.len() > 0)
        &&& !moved ==> next == self
        &&& moved ==> {
            &&& next.revision_list_state@ == Some(
                previous_index(self.revision_list_state@, self.revision_list@.len()),
            )
            &&& next == (App { revision_list_state: next.revision_list_state, ..self })
        }
    }

    /// What moving the revision-files cursor down makes of this state: with no files
    /// nothing changes (`moved` is false); otherwise the cursor goes to `next_index`.
    pub open spec fn next_revision_file_step(self, next: App, moved: bool) -> bool {
        &&& moved == (self.revision_files@.len() > 0)
        &&& !moved ==> next == self
        &&& moved ==> {
            &&& next.revision_file_list_state@ == Some(
                next_index(self.revision_file_list_state@, self.revision_files@.len()),
            )
            &&& next == (App { revision_file_list_state: next.revision_file_list_state, ..self })
        }
    }

    /// What moving the revision-files cursor up makes of this state: with no files
    /// nothing changes (`moved` is false); otherwise the cursor goes to the row
    /// above, wrapping to the bottom (the bottom too when nothing was selected).
    pub open spec fn previous_revision_file_step(self, next: App, moved: bool) -> bool {
        &&& moved == (self.revision_files@.len() > 0)
        &&& !moved ==> next == self
        &&& moved ==> {
            &&& next.revision_file_list_state@ == Some(
                match self.revision_file_list_state@ {
                    Some(i) => if i == 0 {
                        (self.revision_files@.len() - 1) as usize
                    } else {
                        (i - 1) as usize
                    },
                    None => (self.revision_files@.len() - 1) as usize,
                },
            )
            &&& next == (App { revision_file_list_state: next.revision_file_list_state, ..self })
        }
    }

    /// Move the Revisions cursor down one row, wrapping to the top. Returns whether
    /// it moved (the list is not empty), after which the revision's diff is due.
    pub fn next_revision(&mut self) -> (moved: bool)
        ensures
            old(self).next_revision_step(*final(self), moved),
    {
        let len = self.revision_list.len();
        if len == 0 {
            return false;
        }
        let i = match self.revision_list_state.selected() {
            Some(i) => if i >= len - 1 {
                0
            } else {
                i + 1
            },
            None => 0,
        };
        self.revision_list_state.select(Some(i));
        true
    }

    /// Move the Revisions cursor up one row, wrapping to the bottom. Returns whether
    /// it moved (the list is not empty), after which the revision's diff is due.
    pub fn previous_revision(&mut self) -> (moved: bool)
        ensures
            old(self).previous_revision_step(*final(self), moved),
    {
        let len = self.revision_list.len();
        if len == 0 {
            return false;
        }
        let i = match self.revision_list_state.selected() {
            Some(i) => if i == 0 {
                len - 1
            } else {
                i - 1
            },
            None => 0,
        };
        self.revision_list_state.select(Some(i));
        true
    }

    /// Move the revision-files cursor down one row, wrapping to the top. Returns
    /// whether it moved (the list is not empty), after which the file's diff is due.
    pub fn next_revision_file(&mut self) -> (moved: bool)
        ensures
            old(self).next_revision_file_step(*final(self), moved),
    {
        let len = self.revision_files.len();
        if len == 0 {
            return false;
        }
        let i = match self.revision_file_list_state.selected() {
            Some(i) => if i < len - 1 {
                i + 1
            } else {
                0
            },
            None => 0,
        };
        self.revision_file_list_state.select(Some(i));
        true
    }

    /// Move the revision-files cursor up one row, wrapping to the bottom. Returns
    /// whether it moved (the list is not empty), after which the file's diff is due.
    pub fn previous_revision_file(&mut self) -> (moved: bool)
        ensures
            old(self).previous_revision_file_step(*final(self), moved),
    {
        let len = self.revision_files.len();
        if len == 0 {
            return false;
        }
        let i = match self.revision_file_list_state.selected() {
            Some(0) | None => len - 1,
            Some(i) => i - 1,
        };
        self.revision_file_list_state.select(Some(i));
        true
    }
}

}
