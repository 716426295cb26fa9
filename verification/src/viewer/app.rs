//! Key handling of the interactive viewer.
use vstd::prelude::*;

use crate::arena::FlameTree;
use crate::viewer::spark_tree_view::{
    collapse_post, down_post, expand_post, toggle_post, up_post, SparkTreeView, ViewState,
};

verus! {

/// The keys the viewer tells apart.
#[derive(Clone, Copy, Debug, PartialEq, Eq)]
pub enum Key {
    Char(char),
    Up,
    Down,
    Left,
    Right,
    Enter,
    Backspace,
    Other,
}

/// What the event loop does after a key.
#[derive(Clone, Copy, Debug, PartialEq, Eq)]
pub enum Action {
    Continue,
    Exit,
}

/// What a key asks of the view.
pub enum Command {
    Exit,
    Down,
    Up,
    Expand,
    Collapse,
    ToggleSpark,
    Nothing,
}

/// The key bindings: `q` quits, arrows move, right/`l`/Enter expand,
/// left/`h`/Backspace collapse, `s` toggles the spark bars.
pub open spec fn key_command(key: Key) -> Command {
    match key {
        Key::Char('q') | Key::Char('Q') => Command::Exit,
        Key::Down => Command::Down,
        Key::Up => Command::Up,
        Key::Right | Key::Char('l') | Key::Enter => Command::Expand,
        Key::Left | Key::Char('h') | Key::Backspace => Command::Collapse,
        Key::Char('s') => Command::ToggleSpark,
        _ => Command::Nothing,
    }
}

/// The viewer: a tree view driven by keys.
pub struct App<'a, F> {
    view: SparkTreeView<'a, F>,
}

impl<'a, F: Fn(u64, u64) -> bool> App<'a, F> {
    /// The tree view.
    pub closed spec fn tree_view(&self) -> SparkTreeView<'a, F> {
        self.view
    }

    /// The state of the tree view.
    pub open spec fn view_state(&self) -> ViewState<'a> {
        self.tree_view().state()
    }

    pub open spec fn inv(&self) -> bool {
        self.tree_view().inv()
    }

    pub fn new(tree: &'a FlameTree, max_lines: usize, covered: F) -> (a: Self)
        requires
            tree.wf(),
            forall|x: u64, y: u64| covered.requires((x, y)),
        ensures
            a.inv(),
            a.tree_view().coverage() == covered,
            a.view_state().tree() == *tree,
            a.view_state().cursor_pos() == 0,
            a.view_state().line_limit() == max_lines,
            a.view_state().sparks_shown(),
            a.view_state().open_flags() == Seq::new(tree.len(), |i: int| i == 0),
            a.view_state().open_other_flags() == Seq::new(tree.len(), |i: int| false),
    {
        App { view: SparkTreeView::new(tree, max_lines, covered) }
    }

    /// The view, for drawing.
    pub fn view(&self) -> (r: &SparkTreeView<'a, F>)
        ensures
            *r == self.tree_view(),
    {
        &self.view
    }

    /// Handle one key.
    pub fn on_key(&mut self, key: Key) -> (r: Action)
        requires
            old(self).inv(),
        ensures
            final(self).inv(),
            final(self).tree_view().coverage() == old(self).tree_view().coverage(),
            (r == Action::Exit) == (key_command(key) is Exit),
            match key_command(key) {
                Command::Down => down_post(old(self).view_state(), final(self).view_state()),
                Command::Up => up_post(old(self).view_state(), final(self).view_state()),
                Command::Expand => expand_post(
                    old(self).view_state(),
                    final(self).view_state(),
                    old(self).tree_view().coverage(),
                ),
                Command::Collapse => collapse_post(
                    old(self).view_state(),
                    final(self).view_state(),
                    old(self).tree_view().coverage(),
                ),
                Command::ToggleSpark => toggle_post(old(self).view_state(), final(self).view_state()),
                _ => final(self).tree_view() == old(self).tree_view(),
            },
    {
        match key {
            Key::Char('q') | Key::Char('Q') => Action::Exit,
            Key::Down => {
                self.view.down();
                Action::Continue
            },
            Key::Up => {
                self.view.up();
                Action::Continue
            },
            Key::Right | Key::Char('l') | Key::Enter => {
                self.view.expand();
                Action::Continue
            },
            Key::Left | Key::Char('h') | Key::Backspace => {
                self.view.collapse();
                Action::Continue
            },
            Key::Char('s') => {
                self.view.toggle_spark();
                Action::Continue
            },
            _ => Action::Continue,
        }
    }
}

} // verus!
