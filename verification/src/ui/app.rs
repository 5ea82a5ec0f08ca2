//! The state of one interactive session: the tree, the query and what it
//! shows, the cursor, and the screen that is up.

use crate::directory::selection::toggled_to;
use crate::directory::tree::{same_entries, DirectoryTree};
use crate::fuzzy::filter::{filter, is_filtered, names_of};
use crate::ui::navigation::ViewState;
use crate::ui::stats::{compute_stats, file_count, included_bytes, included_count, capped, Stats};
use vstd::prelude::*;

verus! {

/// Which screen is up.
#[derive(Clone, Copy, Debug, PartialEq, Eq, Structural)]
pub enum AppMode {
    /// The search bar, the list and the status bar.
    Main,
    /// The help text.
    Help,
}

/// What the current query shows.
pub struct FilteredResults {
    /// Node indices, in display order.
    pub visible_items: Vec<usize>,
}

/// One thing the user asks for.
pub enum Intent {
    /// Replace the query.
    SetQuery(String),
    /// Toggle the node shown at this row of the filtered list.
    Toggle(usize),
    /// Move the cursor by this many rows.
    MoveCursor(isize),
    /// Move the cursor by this many windows.
    Page(isize),
    /// Move the cursor to the first row.
    Home,
    /// Move the cursor to the last row.
    End,
}

/// What a session holds, as plain values.
pub struct Session {
    /// The tree.
    pub tree: DirectoryTree,
    /// The node indices that the query shows, in display order.
    pub visible: Seq<usize>,
    /// The query.
    pub query: Seq<char>,
    /// Cursor and window.
    pub view: ViewState,
    /// The screen that is up.
    pub mode: AppMode,
}

/// One interactive session.
pub struct App {
    tree: DirectoryTree,
    filtered_results: FilteredResults,
    search_query: String,
    view: ViewState,
    mode: AppMode,
}

impl View for App {
    type V = Session;

    closed spec fn view(&self) -> Session {
        Session {
            tree: self.tree,
            visible: self.filtered_results.visible_items@,
            query: self.search_query@,
            view: self.view,
            mode: self.mode,
        }
    }
}

impl App {
    /// The tree is consistent, the list is what the query shows of it, and
    /// the cursor is on a row of the list and inside the window.
    pub open spec fn wf(&self) -> bool {
        let s = self@;
        &&& s.tree.wf()
        &&& is_filtered(s.visible, s.query, s.tree.shape(), s.tree.root(), names_of(s.tree.nodes()))
        &&& s.view.visible_count == s.visible.len()
        &&& s.view.wf()
    }

    /// A session over `tree` with an empty query, the cursor on the first
    /// row, and a window whose height is not known yet.
    pub fn new(tree: DirectoryTree) -> (app: App)
        requires
            tree.wf(),
        ensures
            app.wf(),
            app@.tree == tree,
            app@.query.len() == 0,
            app@.mode == AppMode::Main,
            app@.view == (ViewState {
                selected_index: 0,
                scroll_offset: 0,
                visible_count: app@.visible.len() as usize,
                viewport_height: 0,
            }),
    {
        let search_query = String::new();
        let visible_items = filter(search_query.as_str(), &tree);
        let mut view = ViewState::new();
        view.clamp_to(visible_items.len(), 0);
        App { tree, filtered_results: FilteredResults { visible_items }, search_query, view, mode: AppMode::Main }
    }

    /// The tree.
    pub fn tree(&self) -> (r: &DirectoryTree)
        ensures
            *r == self@.tree,
    {
        &self.tree
    }

    /// What the query shows.
    pub fn filtered_results(&self) -> (r: &FilteredResults)
        ensures
            r.visible_items@ == self@.visible,
    {
        &self.filtered_results
    }

    /// The query.
    pub fn search_query(&self) -> (r: &String)
        ensures
            r@ == self@.query,
    {
        &self.search_query
    }

    /// Cursor and window.
    pub fn view_state(&self) -> (r: ViewState)
        ensures
            r == self@.view,
    {
        self.view
    }

    /// Row of the filtered list the cursor is on.
    pub fn selected_index(&self) -> (r: usize)
        ensures
            r == self@.view.selected_index,
    {
        self.view.selected_index
    }

    /// First row of the filtered list that is shown.
    pub fn scroll_offset(&self) -> (r: usize)
        ensures
            r == self@.view.scroll_offset,
    {
        self.view.scroll_offset
    }

    /// Number of rows the window shows.
    pub fn viewport_height(&self) -> (r: usize)
        ensures
            r == self@.view.viewport_height,
    {
        self.view.viewport_height
    }

    /// The screen that is up.
    pub fn mode(&self) -> (r: AppMode)
        ensures
            r == self@.mode,
    {
        self.mode
    }

    /// The node under the cursor; `None` when the list is empty.
    pub fn selected_node(&self) -> (r: Option<usize>)
        requires
            self.wf(),
        ensures
            r == (if self@.visible.len() == 0 {
                None
            } else {
                Some(self@.visible[self@.view.selected_index as int])
            }),
    {
        if self.filtered_results.visible_items.len() == 0 {
            None
        } else {
            Some(self.filtered_results.visible_items[self.view.selected_index])
        }
    }

    /// Puts up the given screen.
    pub fn set_mode(&mut self, mode: AppMode)
        ensures
            final(self)@ == (Session { mode, ..old(self)@ }),
    {
        self.mode = mode;
    }

    /// Takes a new window height and scrolls so that the cursor is inside the
    /// window.
    pub fn set_viewport_height(&mut self, viewport_height: usize)
        requires
            old(self).wf(),
        ensures
            final(self).wf(),
            final(self)@ == (Session {
                view: (ViewState { viewport_height, ..old(self)@.view }).moved_to(
                    old(self)@.view.selected_index as int,
                ),
                ..old(self)@
            }),
    {
        let count = self.view.visible_count;
        self.view.clamp_to(count, viewport_height);
    }

    /// Replaces the query: the list becomes what the new query shows, and the
    /// cursor keeps its row, clamped into the new list.
    pub fn set_query(&mut self, text: String)
        requires
            old(self).wf(),
        ensures
            final(self).wf(),
            final(self)@.query == text@,
            final(self)@.tree == old(self)@.tree,
            final(self)@.mode == old(self)@.mode,
            final(self)@.view == (ViewState {
                visible_count: final(self)@.visible.len() as usize,
                ..old(self)@.view
            }).moved_to(old(self)@.view.selected_index as int),
    {
        let visible_items = filter(text.as_str(), &self.tree);
        let height = self.view.viewport_height;
        self.view.clamp_to(visible_items.len(), height);
        self.filtered_results.visible_items = visible_items;
        self.search_query = text;
    }

    /// Toggles the node shown at row `offset` of the filtered list. A row
    /// beyond the list changes nothing. The list itself does not change: what
    /// a query shows does not depend on selection flags.
    pub fn toggle_at(&mut self, offset: usize)
        requires
            old(self).wf(),
        ensures
            final(self).wf(),
            final(self)@.visible == old(self)@.visible,
            final(self)@.query == old(self)@.query,
            final(self)@.view == old(self)@.view,
            final(self)@.mode == old(self)@.mode,
            final(self)@.tree.root() == old(self)@.tree.root(),
            final(self)@.tree.shape() == old(self)@.tree.shape(),
            same_entries(old(self)@.tree.nodes(), final(self)@.tree.nodes()),
            offset < old(self)@.visible.len() ==> toggled_to(
                old(self)@.tree.shape(),
                old(self)@.tree.states(),
                final(self)@.tree.states(),
                old(self)@.visible[offset as int] as int,
            ),
            offset >= old(self)@.visible.len() ==> final(self)@ == old(self)@,
    {
        if offset < self.filtered_results.visible_items.len() {
            let node = self.filtered_results.visible_items[offset];
            proof {
                crate::fuzzy::filter::lemma_filtered_distinct(
                    self@.visible,
                    self@.query,
                    self@.tree.shape(),
                    self@.tree.root(),
                    names_of(self@.tree.nodes()),
                );
            }
            self.tree.toggle(node);
            proof {
                assert(names_of(self@.tree.nodes()) =~= names_of(old(self)@.tree.nodes()));
            }
        }
    }

    /// Moves the cursor by `delta` rows, stopping at either end of the list.
    pub fn move_cursor(&mut self, delta: isize)
        requires
            old(self).wf(),
        ensures
            final(self).wf(),
            final(self)@ == (Session {
                view: old(self)@.view.moved_to(old(self)@.view.selected_index + delta),
                ..old(self)@
            }),
    {
        self.view.move_cursor(delta);
    }

    /// Moves the cursor by `delta` windows, stopping at either end of the list.
    pub fn page(&mut self, delta: isize)
        requires
            old(self).wf(),
        ensures
            final(self).wf(),
            final(self)@ == (Session {
                view: old(self)@.view.moved_to(
                    old(self)@.view.selected_index + delta * old(self)@.view.viewport_height,
                ),
                ..old(self)@
            }),
    {
        self.view.page(delta);
    }

    /// Moves the cursor to the first row.
    pub fn home(&mut self)
        requires
            old(self).wf(),
        ensures
            final(self).wf(),
            final(self)@ == (Session { view: old(self)@.view.moved_to(0), ..old(self)@ }),
    {
        self.view.home();
    }

    /// Moves the cursor to the last row.
    pub fn end(&mut self)
        requires
            old(self).wf(),
        ensures
            final(self).wf(),
            final(self)@ == (Session {
                view: old(self)@.view.moved_to(old(self)@.view.visible_count - 1),
                ..old(self)@
            }),
    {
        self.view.end();
    }

    /// Carries out one intent. The session stays well-formed, the screen that
    /// is up does not change, and each intent does what the operation of its
    /// name does.
    pub fn apply(&mut self, intent: Intent)
        requires
            old(self).wf(),
        ensures
            final(self).wf(),
            final(self)@.mode == old(self)@.mode,
            match intent {
                Intent::SetQuery(text) => {
                    &&& final(self)@.query == text@
                    &&& final(self)@.tree == old(self)@.tree
                    &&& final(self)@.view == (ViewState {
                        visible_count: final(self)@.visible.len() as usize,
                        ..old(self)@.view
                    }).moved_to(old(self)@.view.selected_index as int)
                },
                Intent::Toggle(offset) => {
                    &&& final(self)@.visible == old(self)@.visible
                    &&& final(self)@.query == old(self)@.query
                    &&& final(self)@.view == old(self)@.view
                    &&& same_entries(old(self)@.tree.nodes(), final(self)@.tree.nodes())
                    &&& offset < old(self)@.visible.len() ==> toggled_to(
                        old(self)@.tree.shape(),
                        old(self)@.tree.states(),
                        final(self)@.tree.states(),
                        old(self)@.visible[offset as int] as int,
                    )
                    &&& offset >= old(self)@.visible.len() ==> final(self)@ == old(self)@
                },
                Intent::MoveCursor(delta) => final(self)@ == (Session {
                    view: old(self)@.view.moved_to(old(self)@.view.selected_index + delta),
                    ..old(self)@
                }),
                Intent::Page(delta) => final(self)@ == (Session {
                    view: old(self)@.view.moved_to(
                        old(self)@.view.selected_index + delta * old(self)@.view.viewport_height,
                    ),
                    ..old(self)@
                }),
                Intent::Home => final(self)@ == (Session { view: old(self)@.view.moved_to(0), ..old(self)@ }),
                Intent::End => final(self)@ == (Session {
                    view: old(self)@.view.moved_to(old(self)@.view.visible_count - 1),
                    ..old(self)@
                }),
            },
    {
        match intent {
            Intent::SetQuery(text) => self.set_query(text),
            Intent::Toggle(offset) => self.toggle_at(offset),
            Intent::MoveCursor(delta) => self.move_cursor(delta),
            Intent::Page(delta) => self.page(delta),
            Intent::Home => self.home(),
            Intent::End => self.end(),
        }
    }

    /// The counters of the session's tree and filtered list.
    pub fn get_stats(&self) -> (stats: Stats)
        ensures
            stats.total_files == file_count(self@.tree.nodes()),
            stats.included_files == included_count(self@.tree.nodes()),
            stats.included_size == capped(included_bytes(self@.tree.nodes())),
            stats.filtered_count == self@.visible.len(),
    {
        compute_stats(&self.tree, &self.filtered_results.visible_items)
    }
}

} // verus!
