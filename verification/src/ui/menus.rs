//! The menu bar.

use vstd::prelude::*;
use crate::ui::keys::Action;

verus! {

/// What a menu row calls on.
#[derive(Clone, Copy, Debug, PartialEq, Eq, Structural)]
pub enum Command {
    Do(Action),
    /// Open the recent document in this place of the list.
    OpenRecent(usize),
}

/// A row of a menu.
pub enum Row {
    Item(String, Command),
    /// A rule between groups.
    Rule,
}

/// What a menu of the bar holds.
pub enum Item {
    Plain(Row),
    /// The system's own services.
    Services,
    Sub(String, Vec<Row>),
}

/// A menu of the bar.
pub struct Menu {
    pub name: String,
    pub items: Vec<Item>,
}

pub enum RowModel {
    Item(Seq<char>, Command),
    Rule,
}

pub enum ItemModel {
    Plain(RowModel),
    Services,
    Sub(Seq<char>, Seq<RowModel>),
}

pub struct MenuModel {
    pub name: Seq<char>,
    pub items: Seq<ItemModel>,
}

impl View for Row {
    type V = RowModel;

    open spec fn view(&self) -> RowModel {
        match self {
            Row::Item(title, command) => RowModel::Item(title@, *command),
            Row::Rule => RowModel::Rule,
        }
    }
}

pub open spec fn row_views(rows: Seq<Row>) -> Seq<RowModel> {
    rows.map_values(|r: Row| r@)
}

impl View for Item {
    type V = ItemModel;

    open spec fn view(&self) -> ItemModel {
        match self {
            Item::Plain(row) => ItemModel::Plain(row@),
            Item::Services => ItemModel::Services,
            Item::Sub(name, rows) => ItemModel::Sub(name@, row_views(rows@)),
        }
    }
}

pub open spec fn item_views(items: Seq<Item>) -> Seq<ItemModel> {
    items.map_values(|i: Item| i@)
}

impl View for Menu {
    type V = MenuModel;

    open spec fn view(&self) -> MenuModel {
        MenuModel { name: self.name@, items: item_views(self.items@) }
    }
}

pub open spec fn spec_row(title: Seq<char>, action: Action) -> RowModel {
    RowModel::Item(title, Command::Do(action))
}

pub open spec fn spec_item(title: Seq<char>, action: Action) -> ItemModel {
    ItemModel::Plain(spec_row(title, action))
}

pub open spec fn spec_rule() -> ItemModel {
    ItemModel::Plain(RowModel::Rule)
}

fn row(title: &str, action: Action) -> (r: Row)
    ensures
        r@ == spec_row(title@, action),
{
    Row::Item(title.to_owned(), Command::Do(action))
}

fn item(title: &str, action: Action) -> (r: Item)
    ensures
        r@ == spec_item(title@, action),
{
    Item::Plain(row(title, action))
}

fn rule() -> (r: Item)
    ensures
        r@ == spec_rule(),
{
    Item::Plain(Row::Rule)
}

// ---------------------------------------------------------------------------
// Open Recent
// ---------------------------------------------------------------------------

/// The rows of the documents in a list, each with its place.
pub open spec fn recent_rows(labels: Seq<Seq<char>>) -> Seq<RowModel> {
    labels.map(|i: int, label: Seq<char>| RowModel::Item(label, Command::OpenRecent(i as usize)))
}

/// The rows of Open Recent, which is the one submenu made of data.
pub open spec fn recent_menu(labels: Seq<Seq<char>>) -> Seq<RowModel> {
    if labels.len() == 0 {
        seq![spec_row("Nothing Yet"@, Action::NoRecents)]
    } else {
        recent_rows(labels) + seq![RowModel::Rule, spec_row("Clear Menu"@, Action::ClearRecents)]
    }
}

fn recents(labels: &Vec<String>) -> (r: Vec<Row>)
    ensures
        row_views(r@) == recent_menu(labels@.map_values(|s: String| s@)),
{
    let ghost all = labels@.map_values(|s: String| s@);
    let mut out: Vec<Row> = Vec::new();
    let n: usize = labels.len();
    if n == 0 {
        out.push(row("Nothing Yet", Action::NoRecents));
        assert(row_views(out@) =~= recent_menu(all));
        return out;
    }
    let mut i: usize = 0;
    while i < n
        invariant
            i <= n,
            n == labels@.len(),
            all == labels@.map_values(|s: String| s@),
            row_views(out@) == recent_rows(all).take(i as int),
        decreases n - i,
    {
        let ghost was = row_views(out@);
        out.push(Row::Item(labels[i].clone(), Command::OpenRecent(i)));
        assert(row_views(out@) =~= was.push(
            RowModel::Item(all[i as int], Command::OpenRecent(i)),
        ));
        assert(row_views(out@) =~= recent_rows(all).take(i + 1));
        i = i + 1;
    }
    let ghost was = row_views(out@);
    assert(was =~= recent_rows(all));
    out.push(Row::Rule);
    out.push(row("Clear Menu", Action::ClearRecents));
    assert(row_views(out@) =~= recent_menu(all));
    out
}

// ---------------------------------------------------------------------------
// The bar
// ---------------------------------------------------------------------------

/// The mind67 menu.
pub open spec fn app_menu() -> MenuModel {
    MenuModel {
        name: "mind67"@,
        items: seq![
            spec_item("About mind67"@, Action::About),
            spec_rule(),
            spec_item("Settings…"@, Action::ToggleHelp),
            spec_rule(),
            ItemModel::Services,
            spec_rule(),
            spec_item("Hide mind67"@, Action::HideApp),
            spec_item("Hide Others"@, Action::HideOthers),
            spec_item("Show All"@, Action::ShowAll),
            spec_rule(),
            spec_item("Quit mind67"@, Action::Quit),
        ],
    }
}

fn make_app_menu() -> (r: Menu)
    ensures
        r@ == app_menu(),
{
    let items = vec![
        item("About mind67", Action::About),
        rule(),
        item("Settings…", Action::ToggleHelp),
        rule(),
        Item::Services,
        rule(),
        item("Hide mind67", Action::HideApp),
        item("Hide Others", Action::HideOthers),
        item("Show All", Action::ShowAll),
        rule(),
        item("Quit mind67", Action::Quit),
    ];
    assert(item_views(items@) =~= app_menu().items);
    Menu { name: "mind67".to_owned(), items }
}

/// The rows of Import.
pub open spec fn import_rows() -> Seq<RowModel> {
    seq![
        spec_row("Markdown…"@, Action::ImportMarkdown),
        spec_row("OPML…"@, Action::ImportOpml),
    ]
}

fn import_submenu() -> (r: Vec<Row>)
    ensures
        row_views(r@) == import_rows(),
{
    let r = vec![
        row("Markdown…", Action::ImportMarkdown),
        row("OPML…", Action::ImportOpml),
    ];
    assert(row_views(r@) =~= import_rows());
    r
}

/// The rows of Export.
pub open spec fn export_rows() -> Seq<RowModel> {
    seq![
        spec_row("Image (SVG)…"@, Action::ExportSvg),
        spec_row("Markdown…"@, Action::ExportMarkdown),
        spec_row("OPML…"@, Action::ExportOpml),
        spec_row("Plain Outline…"@, Action::ExportOutline),
    ]
}

fn export_submenu() -> (r: Vec<Row>)
    ensures
        row_views(r@) == export_rows(),
{
    let r = vec![
        row("Image (SVG)…", Action::ExportSvg),
        row("Markdown…", Action::ExportMarkdown),
        row("OPML…", Action::ExportOpml),
        row("Plain Outline…", Action::ExportOutline),
    ];
    assert(row_views(r@) =~= export_rows());
    r
}

/// The File menu.
pub open spec fn file_menu(labels: Seq<Seq<char>>) -> MenuModel {
    MenuModel {
        name: "File"@,
        items: seq![
            spec_item("New"@, Action::NewDocument),
            spec_item("Duplicate"@, Action::DuplicateDocument),
            spec_rule(),
            spec_item("Open…"@, Action::OpenDocument),
            ItemModel::Sub("Open Recent"@, recent_menu(labels)),
            spec_rule(),
            spec_item("Close Window"@, Action::CloseWindow),
            spec_rule(),
            spec_item("Save Now"@, Action::SaveNow),
            spec_item("Save As…"@, Action::SaveAs),
            spec_item("Revert to Saved"@, Action::RevertDocument),
            spec_item("Reveal in Finder"@, Action::RevealInFinder),
            spec_rule(),
            ItemModel::Sub("Import"@, import_rows()),
            ItemModel::Sub("Export"@, export_rows()),
        ],
    }
}

fn make_file_menu(labels: &Vec<String>) -> (r: Menu)
    ensures
        r@ == file_menu(labels@.map_values(|s: String| s@)),
{
    let items = vec![
        item("New", Action::NewDocument),
        item("Duplicate", Action::DuplicateDocument),
        rule(),
        item("Open…", Action::OpenDocument),
        Item::Sub("Open Recent".to_owned(), recents(labels)),
        rule(),
        item("Close Window", Action::CloseWindow),
        rule(),
        item("Save Now", Action::SaveNow),
        item("Save As…", Action::SaveAs),
        item("Revert to Saved", Action::RevertDocument),
        item("Reveal in Finder", Action::RevealInFinder),
        rule(),
        Item::Sub("Import".to_owned(), import_submenu()),
        Item::Sub("Export".to_owned(), export_submenu()),
    ];
    assert(item_views(items@) =~= file_menu(labels@.map_values(|s: String| s@)).items);
    Menu { name: "File".to_owned(), items }
}

/// The rows of Colour.
pub open spec fn colour_rows() -> Seq<RowModel> {
    seq![
        spec_row("None  0"@, Action::SetColor0),
        spec_row("Red  1"@, Action::SetColor1),
        spec_row("Amber  2"@, Action::SetColor2),
        spec_row("Green  3"@, Action::SetColor3),
        spec_row("Teal  4"@, Action::SetColor4),
        spec_row("Blue  5"@, Action::SetColor5),
        spec_row("Violet  6"@, Action::SetColor6),
    ]
}

fn colour_submenu() -> (r: Vec<Row>)
    ensures
        row_views(r@) == colour_rows(),
{
    let r = vec![
        row("None  0", Action::SetColor0),
        row("Red  1", Action::SetColor1),
        row("Amber  2", Action::SetColor2),
        row("Green  3", Action::SetColor3),
        row("Teal  4", Action::SetColor4),
        row("Blue  5", Action::SetColor5),
        row("Violet  6", Action::SetColor6),
    ];
    assert(row_views(r@) =~= colour_rows());
    r
}

/// The Edit menu.
pub open spec fn edit_menu() -> MenuModel {
    MenuModel {
        name: "Edit"@,
        items: seq![
            spec_item("Undo"@, Action::Undo),
            spec_item("Redo"@, Action::Redo),
            spec_rule(),
            spec_item("Cut"@, Action::CutNodes),
            spec_item("Copy"@, Action::CopyNodes),
            spec_item("Paste"@, Action::PasteNodes),
            spec_item("Duplicate"@, Action::DuplicateNodes),
            spec_item("Select All Nodes"@, Action::SelectAllNodes),
            ItemModel::Sub("Colour"@, colour_rows()),
            spec_rule(),
            spec_item("Find"@, Action::OpenFind),
            spec_rule(),
            spec_item("Fold / Unfold"@, Action::ToggleFold),
            spec_rule(),
            spec_item("New Child  ⇥"@, Action::MenuNewChild),
            spec_item("New Sibling  ⇧⇥"@, Action::MenuNewSibling),
            spec_rule(),
            spec_item("Select Siblings"@, Action::SelectSiblings),
            spec_item("Move Up  ⌥⇧↑"@, Action::MoveSiblingUp),
            spec_item("Move Down  ⌥⇧↓"@, Action::MoveSiblingDown),
            spec_item("Promote  ⌥⇧←"@, Action::Outdent),
            spec_item("Demote  ⌥⇧→"@, Action::Indent),
            spec_rule(),
            spec_item("Create Right"@, Action::CreateRight),
            spec_item("Create Left"@, Action::CreateLeft),
            spec_item("Create Up"@, Action::CreateUp),
            spec_item("Create Down"@, Action::CreateDown),
            spec_item("Delete Node"@, Action::DeleteNode),
            spec_rule(),
            spec_item("Edge Label"@, Action::ToggleEdgeLabel),
            spec_item("Edit / Done  ↩"@, Action::MenuCommit),
            spec_rule(),
            spec_item("Deselect / Cancel"@, Action::Escape),
        ],
    }
}

fn make_edit_menu() -> (r: Menu)
    ensures
        r@ == edit_menu(),
{
    let items = vec![
        item("Undo", Action::Undo),
        item("Redo", Action::Redo),
        rule(),
        item("Cut", Action::CutNodes),
        item("Copy", Action::CopyNodes),
        item("Paste", Action::PasteNodes),
        item("Duplicate", Action::DuplicateNodes),
        item("Select All Nodes", Action::SelectAllNodes),
        Item::Sub("Colour".to_owned(), colour_submenu()),
        rule(),
        item("Find", Action::OpenFind),
        rule(),
        item("Fold / Unfold", Action::ToggleFold),
        rule(),
        item("New Child  ⇥", Action::MenuNewChild),
        item("New Sibling  ⇧⇥", Action::MenuNewSibling),
        rule(),
        item("Select Siblings", Action::SelectSiblings),
        item("Move Up  ⌥⇧↑", Action::MoveSiblingUp),
        item("Move Down  ⌥⇧↓", Action::MoveSiblingDown),
        item("Promote  ⌥⇧←", Action::Outdent),
        item("Demote  ⌥⇧→", Action::Indent),
        rule(),
        item("Create Right", Action::CreateRight),
        item("Create Left", Action::CreateLeft),
        item("Create Up", Action::CreateUp),
        item("Create Down", Action::CreateDown),
        item("Delete Node", Action::DeleteNode),
        rule(),
        item("Edge Label", Action::ToggleEdgeLabel),
        item("Edit / Done  ↩", Action::MenuCommit),
        rule(),
        item("Deselect / Cancel", Action::Escape),
    ];
    assert(item_views(items@) =~= edit_menu().items);
    Menu { name: "Edit".to_owned(), items }
}

/// The View menu.
pub open spec fn view_menu() -> MenuModel {
    MenuModel {
        name: "View"@,
        items: seq![
            spec_item("Zoom In"@, Action::ZoomIn),
            spec_item("Zoom Out"@, Action::ZoomOut),
            spec_item("Fit Map"@, Action::ZoomFit),
            spec_item("Actual Size"@, Action::ZoomReset),
            spec_rule(),
            spec_item("Minimap"@, Action::ToggleMinimap),
            spec_item("Paper / Night"@, Action::ToggleTheme),
            spec_rule(),
            spec_item("Tidy Layout"@, Action::TidyLayout),
            spec_rule(),
            spec_item("Next Sibling"@, Action::FocusNextSibling),
            spec_item("Previous Sibling"@, Action::FocusPrevSibling),
        ],
    }
}

fn make_view_menu() -> (r: Menu)
    ensures
        r@ == view_menu(),
{
    let items = vec![
        item("Zoom In", Action::ZoomIn),
        item("Zoom Out", Action::ZoomOut),
        item("Fit Map", Action::ZoomFit),
        item("Actual Size", Action::ZoomReset),
        rule(),
        item("Minimap", Action::ToggleMinimap),
        item("Paper / Night", Action::ToggleTheme),
        rule(),
        item("Tidy Layout", Action::TidyLayout),
        rule(),
        item("Next Sibling", Action::FocusNextSibling),
        item("Previous Sibling", Action::FocusPrevSibling),
    ];
    assert(item_views(items@) =~= view_menu().items);
    Menu { name: "View".to_owned(), items }
}

/// The Window menu.
pub open spec fn window_menu() -> MenuModel {
    MenuModel {
        name: "Window"@,
        items: seq![
            spec_item("Minimize"@, Action::MinimizeWindow),
            spec_item("Zoom"@, Action::ZoomWindow),
            spec_rule(),
            spec_item("Enter Full Screen"@, Action::ToggleFullScreen),
        ],
    }
}

fn make_window_menu() -> (r: Menu)
    ensures
        r@ == window_menu(),
{
    let items = vec![
        item("Minimize", Action::MinimizeWindow),
        item("Zoom", Action::ZoomWindow),
        rule(),
        item("Enter Full Screen", Action::ToggleFullScreen),
    ];
    assert(item_views(items@) =~= window_menu().items);
    Menu { name: "Window".to_owned(), items }
}

/// The Help menu.
pub open spec fn help_menu() -> MenuModel {
    MenuModel {
        name: "Help"@,
        items: seq![
            spec_item("mind67 Shortcuts"@, Action::ToggleHelp),
        ],
    }
}

fn make_help_menu() -> (r: Menu)
    ensures
        r@ == help_menu(),
{
    let items = vec![
        item("mind67 Shortcuts", Action::ToggleHelp),
    ];
    assert(item_views(items@) =~= help_menu().items);
    Menu { name: "Help".to_owned(), items }
}

/// The menu bar, where Open Recent lists documents by `labels`.
pub open spec fn menu_bar(labels: Seq<Seq<char>>) -> Seq<MenuModel> {
    seq![app_menu(), file_menu(labels), edit_menu(), view_menu(), window_menu(), help_menu()]
}

/// The menu bar, where Open Recent lists documents by `labels`.
pub fn menus(labels: &Vec<String>) -> (r: Vec<Menu>)
    ensures
        r@.map_values(|m: Menu| m@) == menu_bar(labels@.map_values(|s: String| s@)),
{
    let r = vec![
        make_app_menu(),
        make_file_menu(labels),
        make_edit_menu(),
        make_view_menu(),
        make_window_menu(),
        make_help_menu(),
    ];
    assert(r@.map_values(|m: Menu| m@) =~= menu_bar(labels@.map_values(|s: String| s@)));
    r
}

} // verus!
