//! The context menu: which rows it has over a node, over an edge and over the
//! ground, how tall it is, and what each row does.

use vstd::prelude::*;
use crate::graph::model::GraphModel;
use crate::graph::Mode;
use crate::ui::editor::{Editor, EditorModel};
use crate::ui::gesture;
use crate::ui::keys::Action;

verus! {

broadcast use {vstd::std_specs::hash::group_hash_axioms, vstd::std_specs::btree::group_btree_axioms};

/// What a row of the menu does.
#[derive(Clone, Copy, Debug, PartialEq, Eq, Structural)]
pub enum MenuCmd {
    NewChild,
    NewSibling,
    NewNodeHere,
    EditLabel,
    SelectBranch,
    Fold,
    Duplicate,
    Copy,
    Cut,
    Paste,
    Delete,
    SelectAll,
    Tidy,
    Fit,
}

/// A row of the menu: what it says, the key that does the same, and what it does.
pub enum MenuRow {
    Item(String, String, MenuCmd),
    Rule,
}

pub enum MenuRowModel {
    Item(Seq<char>, Seq<char>, MenuCmd),
    Rule,
}

impl View for MenuRow {
    type V = MenuRowModel;

    open spec fn view(&self) -> MenuRowModel {
        match self {
            MenuRow::Item(label, key, cmd) => MenuRowModel::Item(label@, key@, *cmd),
            MenuRow::Rule => MenuRowModel::Rule,
        }
    }
}

/// What the pointer is over when the menu opens.
#[derive(Clone, Copy, Debug, PartialEq, Eq, Structural)]
pub enum Over {
    Node(u64),
    Edge(u64),
    Ground,
}

pub open spec fn row_views(rows: Seq<MenuRow>) -> Seq<MenuRowModel> {
    rows.map_values(|r: MenuRow| r@)
}

pub open spec fn spec_item(label: Seq<char>, key: Seq<char>, cmd: MenuCmd) -> MenuRowModel {
    MenuRowModel::Item(label, key, cmd)
}

fn item(label: &str, key: &str, cmd: MenuCmd) -> (r: MenuRow)
    ensures
        r@ == spec_item(label@, key@, cmd),
{
    MenuRow::Item(label.to_owned(), key.to_owned(), cmd)
}

/// The rows over a node: `many` says that more than one is selected, `fold` what
/// a fold would do to it, if it has children.
pub open spec fn node_rows(many: bool, fold: Option<bool>) -> Seq<MenuRowModel> {
    let top = seq![
        spec_item("new child"@, "⇥"@, MenuCmd::NewChild),
        spec_item("new sibling"@, "⇧⇥"@, MenuCmd::NewSibling),
        MenuRowModel::Rule,
    ];
    let one = seq![
        spec_item("edit label"@, "↩"@, MenuCmd::EditLabel),
        spec_item("select branch"@, "⌘ click"@, MenuCmd::SelectBranch),
    ];
    let folding = match fold {
        Some(folded) => seq![
            spec_item(
                if folded {
                    "Unfold"@
                } else {
                    "Fold branch"@
                },
                "⌘."@,
                MenuCmd::Fold,
            ),
        ],
        None => seq![],
    };
    let end = seq![
        spec_item("duplicate"@, "⌘D"@, MenuCmd::Duplicate),
        spec_item("copy"@, "⌘C"@, MenuCmd::Copy),
        spec_item("cut"@, "⌘X"@, MenuCmd::Cut),
        MenuRowModel::Rule,
        spec_item(
            if many {
                "Delete selection"@
            } else {
                "Delete"@
            },
            "⌫"@,
            MenuCmd::Delete,
        ),
    ];
    if many {
        top + end
    } else {
        top + one + folding + seq![MenuRowModel::Rule] + end
    }
}

/// The rows over an edge.
pub open spec fn edge_rows() -> Seq<MenuRowModel> {
    seq![spec_item("edit label"@, "⌘L"@, MenuCmd::EditLabel)]
}

/// The rows over the ground.
pub open spec fn ground_rows() -> Seq<MenuRowModel> {
    seq![
        spec_item("new node here"@, "double-click"@, MenuCmd::NewNodeHere),
        spec_item("paste"@, "⌘V"@, MenuCmd::Paste),
        MenuRowModel::Rule,
        spec_item("select all"@, "⌘A"@, MenuCmd::SelectAll),
        spec_item("tidy layout"@, "⌘R"@, MenuCmd::Tidy),
        spec_item("fit map"@, "⌘0"@, MenuCmd::Fit),
    ]
}

/// A node that something hangs under.
pub open spec fn has_children(g: GraphModel, id: u64) -> bool {
    exists|c: u64| #[trigger] g.children(id).contains(c)
}

/// What opening the menu does to the map, and its rows.
pub open spec fn opened(g: GraphModel, over: Over) -> (GraphModel, Seq<MenuRowModel>) {
    match over {
        Over::Node(id) => {
            let h = if g.selected.contains(id) {
                g
            } else {
                g.browsing().focused_on(id)
            };
            let fold = if has_children(h, id) {
                Some(h.collapsed(id))
            } else {
                None
            };
            (h, node_rows(h.selected.len() > 1, fold))
        },
        Over::Edge(id) => (g.browsing().edge_focused(id), edge_rows()),
        Over::Ground => (
            GraphModel { selected: Set::empty(), ..g.browsing() },
            ground_rows(),
        ),
    }
}

fn over_node(many: bool, fold: Option<bool>) -> (rows: Vec<MenuRow>)
    ensures
        row_views(rows@) == node_rows(many, fold),
{
    let mut rows = vec![
        item("new child", "⇥", MenuCmd::NewChild),
        item("new sibling", "⇧⇥", MenuCmd::NewSibling),
        MenuRow::Rule,
    ];
    if !many {
        rows.push(item("edit label", "↩", MenuCmd::EditLabel));
        rows.push(item("select branch", "⌘ click", MenuCmd::SelectBranch));
        if let Some(folded) = fold {
            let label = if folded {
                "Unfold"
            } else {
                "Fold branch"
            };
            rows.push(item(label, "⌘.", MenuCmd::Fold));
        }
        rows.push(MenuRow::Rule);
    }
    rows.push(item("duplicate", "⌘D", MenuCmd::Duplicate));
    rows.push(item("copy", "⌘C", MenuCmd::Copy));
    rows.push(item("cut", "⌘X", MenuCmd::Cut));
    rows.push(MenuRow::Rule);
    let last = if many {
        "Delete selection"
    } else {
        "Delete"
    };
    rows.push(item(last, "⌫", MenuCmd::Delete));
    assert(row_views(rows@) =~= node_rows(many, fold));
    rows
}

impl Editor {
    /// Opens the menu over what the pointer is over. A node outside the selection
    /// is picked first: to act on something that is not seen selected is how the
    /// wrong branch is deleted.
    pub fn open_menu(&mut self, over: Over) -> (rows: Vec<MenuRow>)
        ensures
            final(self)@ == old(self)@.with(opened(old(self)@.graph, over).0),
            row_views(rows@) == opened(old(self)@.graph, over).1,
    {
        match over {
            Over::Node(id) => {
                if !self.graph.is_node_selected(id) {
                    self.graph.leave_edit();
                    self.graph.focus(id);
                }
                let picked = self.graph.acting_on();
                let many = picked.len() > 1;
                let kids = self.graph.children_of(id);
                let folded = self.graph.is_collapsed(id);
                proof {
                    let h = self@.graph;
                    crate::ids::lemma_lists_len(picked@, h.selected);
                    if kids@.len() > 0 {
                        assert(kids@.contains(kids@[0]));
                        assert(h.children(id).contains(kids@[0]));
                    }
                    if has_children(h, id) {
                        let c = choose|c: u64| #[trigger] h.children(id).contains(c);
                        assert(kids@.contains(c));
                    }
                }
                let fold = if kids.len() > 0 {
                    Some(folded)
                } else {
                    None
                };
                over_node(many, fold)
            },
            Over::Edge(id) => {
                self.graph.leave_edit();
                self.graph.focus_edge(id);
                let rows = vec![item("edit label", "⌘L", MenuCmd::EditLabel)];
                assert(row_views(rows@) =~= edge_rows());
                rows
            },
            Over::Ground => {
                self.graph.leave_edit();
                self.graph.deselect_all();
                let rows = vec![
                    item("new node here", "double-click", MenuCmd::NewNodeHere),
                    item("paste", "⌘V", MenuCmd::Paste),
                    MenuRow::Rule,
                    item("select all", "⌘A", MenuCmd::SelectAll),
                    item("tidy layout", "⌘R", MenuCmd::Tidy),
                    item("fit map", "⌘0", MenuCmd::Fit),
                ];
                assert(row_views(rows@) =~= ground_rows());
                rows
            },
        }
    }

    /// The row that opens a label. Unlike the return key it never closes one.
    pub fn edit_label(&mut self)
        ensures
            final(self)@ == old(self)@.with(
                (GraphModel { mode: Mode::Edit, ..old(self)@.graph }).caret_at_end(),
            ),
    {
        self.graph.enter_edit();
    }

    /// The row that selects the branch of the cursor's node.
    pub fn select_branch(&mut self)
        ensures
            final(self)@ == old(self)@.with(
                gesture::branch_picked(old(self)@.graph.browsing(), old(self)@.graph.focus),
            ).sealed(),
    {
        let id: u64 = self.graph.focused_id;
        self.graph.leave_edit();
        self.graph.select_subtree_of(id);
        self.history.seal();
    }
}

/// What a row takes of the menu's height.
pub const ROW_HEIGHT: u32 = 22;

/// What a rule takes of it.
pub const RULE_HEIGHT: u32 = 7;

/// What is left above and below the rows.
pub const EDGE_HEIGHT: u32 = 8;

/// How tall a menu of these rows is.
pub open spec fn height(rows: Seq<MenuRowModel>) -> nat
    decreases rows.len(),
{
    if rows.len() == 0 {
        EDGE_HEIGHT as nat
    } else {
        height(rows.drop_last()) + match rows.last() {
            MenuRowModel::Item(_, _, _) => ROW_HEIGHT as nat,
            MenuRowModel::Rule => RULE_HEIGHT as nat,
        }
    }
}

/// How tall a menu of these rows is.
pub fn menu_height(rows: &Vec<MenuRow>) -> (r: u32)
    requires
        EDGE_HEIGHT + rows@.len() * ROW_HEIGHT <= u32::MAX,
    ensures
        r == height(row_views(rows@)),
{
    let n: usize = rows.len();
    let mut h: u32 = EDGE_HEIGHT;
    let mut i: usize = 0;
    let ghost all = row_views(rows@);
    assert(all.take(0) =~= seq![]);
    while i < n
        invariant
            i <= n,
            n == rows@.len(),
            EDGE_HEIGHT + n * ROW_HEIGHT <= u32::MAX,
            all == row_views(rows@),
            h == height(all.take(i as int)),
            h <= EDGE_HEIGHT + i * ROW_HEIGHT,
        decreases n - i,
    {
        assert(all.take(i + 1).drop_last() =~= all.take(i as int));
        assert(all.take(i + 1).last() == rows@[i as int]@);
        match &rows[i] {
            MenuRow::Item(_, _, _) => {
                h = h + ROW_HEIGHT;
            },
            MenuRow::Rule => {
                h = h + RULE_HEIGHT;
            },
        }
        i = i + 1;
    }
    assert(all.take(n as int) =~= all);
    h
}

/// The action that a row shares with a key, if it has one: the menu is a second
/// door to the same verbs. A node here, a label and a branch are the row's own.
pub open spec fn action(cmd: MenuCmd) -> Option<Action> {
    match cmd {
        MenuCmd::NewChild => Some(Action::CreateChild),
        MenuCmd::NewSibling => Some(Action::CreateSibling),
        MenuCmd::NewNodeHere => None,
        MenuCmd::EditLabel => None,
        MenuCmd::SelectBranch => None,
        MenuCmd::Fold => Some(Action::ToggleFold),
        MenuCmd::Duplicate => Some(Action::DuplicateNodes),
        MenuCmd::Copy => Some(Action::CopyNodes),
        MenuCmd::Cut => Some(Action::CutNodes),
        MenuCmd::Paste => Some(Action::PasteNodes),
        MenuCmd::Delete => Some(Action::DeleteNode),
        MenuCmd::SelectAll => Some(Action::SelectAllNodes),
        MenuCmd::Tidy => Some(Action::TidyLayout),
        MenuCmd::Fit => Some(Action::ZoomFit),
    }
}

pub fn run_menu(cmd: MenuCmd) -> (r: Option<Action>)
    ensures
        r == action(cmd),
{
    match cmd {
        MenuCmd::NewChild => Some(Action::CreateChild),
        MenuCmd::NewSibling => Some(Action::CreateSibling),
        MenuCmd::NewNodeHere => None,
        MenuCmd::EditLabel => None,
        MenuCmd::SelectBranch => None,
        MenuCmd::Fold => Some(Action::ToggleFold),
        MenuCmd::Duplicate => Some(Action::DuplicateNodes),
        MenuCmd::Copy => Some(Action::CopyNodes),
        MenuCmd::Cut => Some(Action::CutNodes),
        MenuCmd::Paste => Some(Action::PasteNodes),
        MenuCmd::Delete => Some(Action::DeleteNode),
        MenuCmd::SelectAll => Some(Action::SelectAllNodes),
        MenuCmd::Tidy => Some(Action::TidyLayout),
        MenuCmd::Fit => Some(Action::ZoomFit),
    }
}

/// Whatever the menu is opened over, the history is left alone, and what was
/// selected together with the node under the pointer stays selected.
pub proof fn a_menu_keeps_the_selection_it_is_over(e: EditorModel, id: u64)
    requires
        e.graph.selected.contains(id),
    ensures
        opened(e.graph, Over::Node(id)).0 == e.graph,
{
}

} // verus!
