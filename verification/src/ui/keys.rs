//! The keyboard: what each chord means in each mode, and which verbs can be given
//! another chord.

use vstd::prelude::*;

pub mod laws;
pub mod rebind;

verus! {

/// What a key or a menu row does.
#[derive(Clone, Copy, Debug, PartialEq, Eq, Structural)]
pub enum Action {
    CreateRight,
    CreateLeft,
    CreateUp,
    CreateDown,
    DeleteNode,
    TidyLayout,
    NavLeft,
    NavRight,
    NavUp,
    NavDown,
    Escape,
    FocusPrevSibling,
    FocusNextSibling,
    CreateChild,
    CreateSibling,
    ToggleFold,
    OpenFind,
    FindNext,
    FindPrev,
    FindBackspace,
    FindToggleReplace,
    FindReplaceAll,
    SelectAllNodes,
    SelectSiblings,
    MoveSiblingUp,
    MoveSiblingDown,
    Outdent,
    Indent,
    FocusRoot,
    FocusLast,
    NudgeLeft,
    NudgeRight,
    NudgeUp,
    NudgeDown,
    NudgeLeftBig,
    NudgeRightBig,
    NudgeUpBig,
    NudgeDownBig,
    ZoomIn,
    ZoomOut,
    ZoomFit,
    ZoomReset,
    ToggleEdgeLabel,
    Commit,
    Backspace,
    DeleteForward,
    DeleteWordLeft,
    ClearFocusText,
    CaretLeft,
    CaretRight,
    CaretWordLeft,
    CaretWordRight,
    CaretHome,
    CaretEnd,
    CaretUp,
    CaretDown,
    InsertNewline,
    SelectLeft,
    SelectRight,
    SelectWordLeft,
    SelectWordRight,
    SelectHome,
    SelectEnd,
    SelectUp,
    SelectDown,
    SelectAll,
    CutText,
    CopyText,
    PasteText,
    CutNodes,
    CopyNodes,
    PasteNodes,
    DuplicateNodes,
    Undo,
    Redo,
    NewDocument,
    OpenDocument,
    SaveNow,
    SaveAs,
    RevertDocument,
    DuplicateDocument,
    RevealInFinder,
    ClearRecents,
    ExportMarkdown,
    ExportOpml,
    ExportOutline,
    ExportSvg,
    ImportMarkdown,
    ImportOpml,
    SetColor0,
    SetColor1,
    SetColor2,
    SetColor3,
    SetColor4,
    SetColor5,
    SetColor6,
    ToggleMinimap,
    About,
    HideApp,
    HideOthers,
    ShowAll,
    MinimizeWindow,
    ZoomWindow,
    ToggleFullScreen,
    CloseWindow,
    NoRecents,
    MenuNewChild,
    MenuNewSibling,
    MenuCommit,
    ToggleTheme,
    ToggleHelp,
    HelpBackspace,
    Quit,
}

/// Whether an action is carried out while the shortcut panel is up: it lets through
/// only what is about itself or the search, and quitting.
pub fn passes_panel(a: Action) -> (r: bool)
    ensures
        r == (a == Action::Escape || a == Action::ToggleHelp || a == Action::HelpBackspace || a
            == Action::OpenFind || a == Action::FindNext || a == Action::FindPrev || a
            == Action::Quit),
{
    match a {
        Action::Escape
        | Action::ToggleHelp
        | Action::HelpBackspace
        | Action::OpenFind
        | Action::FindNext
        | Action::FindPrev
        | Action::Quit => true,
        _ => false,
    }
}

/// What the keyboard is pointed at.
#[derive(Clone, Copy, Debug, PartialEq, Eq, Structural)]
pub enum KeyMode {
    Browse,
    Edit,
    /// The find field is open.
    Find,
    /// The shortcut panel is up.
    Help,
}

/// Where a binding holds.
#[derive(Clone, Copy, Debug, PartialEq, Eq, Structural)]
pub enum Where {
    Browse,
    Edit,
    /// Driving the map, browsing or editing.
    Driving,
    /// Everywhere, over the shortcut panel too.
    Anywhere,
    /// Whatever the keyboard is pointed at, but not over the shortcut panel.
    Session,
    Find,
    Help,
}

/// A key.
#[derive(Clone, Copy, Debug, PartialEq, Eq, Structural)]
pub enum Key {
    Left,
    Right,
    Up,
    Down,
    Tab,
    Enter,
    Escape,
    Backspace,
    Delete,
    Home,
    End,
    Char(char),
}

/// A key and the modifiers held with it.
#[derive(Clone, Copy, Debug, PartialEq, Eq, Structural)]
pub struct Chord {
    pub cmd: bool,
    pub ctrl: bool,
    pub alt: bool,
    pub shift: bool,
    pub key: Key,
}

/// A chord, what it does, and where.
#[derive(Clone, Copy, Debug, PartialEq, Eq, Structural)]
pub struct Binding {
    pub chord: Chord,
    pub action: Action,
    pub when: Where,
}

impl Chord {
    pub open spec fn held(self, cmd: bool, ctrl: bool, alt: bool, shift: bool) -> bool {
        self.cmd == cmd && self.ctrl == ctrl && self.alt == alt && self.shift == shift
    }

    /// No modifier is held.
    pub open spec fn plain(self) -> bool {
        self.held(false, false, false, false)
    }

    pub open spec fn cmd(self) -> bool {
        self.held(true, false, false, false)
    }

    pub open spec fn shift(self) -> bool {
        self.held(false, false, false, true)
    }

    pub open spec fn alt(self) -> bool {
        self.held(false, false, true, false)
    }

    pub open spec fn cmd_shift(self) -> bool {
        self.held(true, false, false, true)
    }

    pub open spec fn cmd_alt(self) -> bool {
        self.held(true, false, true, false)
    }

    pub open spec fn alt_shift(self) -> bool {
        self.held(false, false, true, true)
    }

    pub open spec fn ctrl_cmd(self) -> bool {
        self.held(true, true, false, false)
    }
}

/// The mode of the keyboard. The shortcut panel outranks the find field, and the
/// find field outranks the map.
pub open spec fn mode_of(help: bool, find: bool, editing: bool) -> KeyMode {
    if help {
        KeyMode::Help
    } else if find {
        KeyMode::Find
    } else if editing {
        KeyMode::Edit
    } else {
        KeyMode::Browse
    }
}

/// The mode of the keyboard.
pub fn key_mode(help: bool, find: bool, editing: bool) -> (r: KeyMode)
    ensures
        r == mode_of(help, find, editing),
{
    if help {
        KeyMode::Help
    } else if find {
        KeyMode::Find
    } else if editing {
        KeyMode::Edit
    } else {
        KeyMode::Browse
    }
}

/// A binding that holds in a mode.
pub open spec fn live(when: Where, mode: KeyMode) -> bool {
    match when {
        Where::Browse => mode == KeyMode::Browse,
        Where::Edit => mode == KeyMode::Edit,
        Where::Driving => mode == KeyMode::Browse || mode == KeyMode::Edit,
        Where::Anywhere => true,
        Where::Session => mode != KeyMode::Help,
        Where::Find => mode == KeyMode::Find,
        Where::Help => mode == KeyMode::Help,
    }
}

/// Whether a binding holds in a mode.
pub fn is_live(when: Where, mode: KeyMode) -> (r: bool)
    ensures
        r == live(when, mode),
{
    match when {
        Where::Browse => mode == KeyMode::Browse,
        Where::Edit => mode == KeyMode::Edit,
        Where::Driving => mode == KeyMode::Browse || mode == KeyMode::Edit,
        Where::Anywhere => true,
        Where::Session => mode != KeyMode::Help,
        Where::Find => mode == KeyMode::Find,
        Where::Help => mode == KeyMode::Help,
    }
}

// ---------------------------------------------------------------------------
// The grammar
// ---------------------------------------------------------------------------

/// What a key means everywhere, the shortcut panel included.
pub open spec fn anywhere_meaning(c: Chord) -> Option<Action> {
    match c.key {
        Key::Char('g') => if c.cmd() {
            Some(Action::FindNext)
        } else if c.cmd_shift() {
            Some(Action::FindPrev)
        } else {
            None
        },
        Key::Escape => if c.plain() {
            Some(Action::Escape)
        } else {
            None
        },
        Key::Char('q') => if c.cmd() {
            Some(Action::Quit)
        } else {
            None
        },
        Key::Char('h') => if c.cmd() {
            Some(Action::HideApp)
        } else if c.cmd_alt() {
            Some(Action::HideOthers)
        } else {
            None
        },
        Key::Char('m') => if c.cmd() {
            Some(Action::MinimizeWindow)
        } else {
            None
        },
        Key::Char('f') => if c.ctrl_cmd() {
            Some(Action::ToggleFullScreen)
        } else {
            None
        },
        Key::Char('w') => if c.cmd() {
            Some(Action::CloseWindow)
        } else {
            None
        },
        _ => None,
    }
}

/// What a key means wherever the shortcut panel is not up.
pub open spec fn session_meaning(c: Chord) -> Option<Action> {
    match c.key {
        Key::Char('=') => if c.cmd_shift() {
            Some(Action::ZoomIn)
        } else {
            None
        },
        Key::Char('z') => if c.cmd() {
            Some(Action::Undo)
        } else if c.cmd_shift() {
            Some(Action::Redo)
        } else {
            None
        },
        Key::Char(',') => if c.cmd() {
            Some(Action::ToggleHelp)
        } else {
            None
        },
        _ => None,
    }
}

/// What a key means while the map is driven, browsing or editing.
pub open spec fn driving_meaning(c: Chord) -> Option<Action> {
    match c.key {
        Key::Right => if c.cmd() {
            Some(Action::CreateRight)
        } else if c.cmd_alt() {
            Some(Action::NudgeRight)
        } else {
            None
        },
        Key::Left => if c.cmd() {
            Some(Action::CreateLeft)
        } else if c.cmd_alt() {
            Some(Action::NudgeLeft)
        } else {
            None
        },
        Key::Up => if c.cmd() {
            Some(Action::CreateUp)
        } else if c.cmd_alt() {
            Some(Action::NudgeUp)
        } else {
            None
        },
        Key::Down => if c.cmd() {
            Some(Action::CreateDown)
        } else if c.cmd_alt() {
            Some(Action::NudgeDown)
        } else {
            None
        },
        Key::Backspace => if c.cmd_shift() {
            Some(Action::DeleteNode)
        } else {
            None
        },
        Key::Enter => if c.cmd() {
            Some(Action::CreateChild)
        } else if c.cmd_shift() {
            Some(Action::CreateSibling)
        } else if c.plain() {
            Some(Action::Commit)
        } else {
            None
        },
        _ => None,
    }
}

/// What a key means while browsing only.
pub open spec fn browse_meaning(c: Chord) -> Option<Action> {
    match c.key {
        Key::Left => if c.plain() {
            Some(Action::NudgeLeft)
        } else if c.shift() {
            Some(Action::NudgeLeftBig)
        } else if c.alt() {
            Some(Action::NavLeft)
        } else if c.alt_shift() {
            Some(Action::Outdent)
        } else {
            None
        },
        Key::Right => if c.plain() {
            Some(Action::NudgeRight)
        } else if c.shift() {
            Some(Action::NudgeRightBig)
        } else if c.alt() {
            Some(Action::NavRight)
        } else if c.alt_shift() {
            Some(Action::Indent)
        } else {
            None
        },
        Key::Up => if c.plain() {
            Some(Action::NudgeUp)
        } else if c.shift() {
            Some(Action::NudgeUpBig)
        } else if c.alt() {
            Some(Action::NavUp)
        } else if c.alt_shift() {
            Some(Action::MoveSiblingUp)
        } else {
            None
        },
        Key::Down => if c.plain() {
            Some(Action::NudgeDown)
        } else if c.shift() {
            Some(Action::NudgeDownBig)
        } else if c.alt() {
            Some(Action::NavDown)
        } else if c.alt_shift() {
            Some(Action::MoveSiblingDown)
        } else {
            None
        },
        Key::Tab => if c.plain() {
            Some(Action::CreateChild)
        } else if c.shift() {
            Some(Action::CreateSibling)
        } else {
            None
        },
        Key::Home => if c.plain() {
            Some(Action::FocusRoot)
        } else {
            None
        },
        Key::End => if c.plain() {
            Some(Action::FocusLast)
        } else {
            None
        },
        Key::Char('a') => if c.cmd() {
            Some(Action::SelectAllNodes)
        } else {
            None
        },
        Key::Char('x') => if c.cmd() {
            Some(Action::CutNodes)
        } else {
            None
        },
        Key::Char('c') => if c.cmd() {
            Some(Action::CopyNodes)
        } else {
            None
        },
        Key::Char('v') => if c.cmd() {
            Some(Action::PasteNodes)
        } else {
            None
        },
        Key::Backspace => if c.plain() {
            Some(Action::DeleteNode)
        } else {
            None
        },
        Key::Delete => if c.plain() {
            Some(Action::DeleteNode)
        } else {
            None
        },
        Key::Char('0') => if c.plain() {
            Some(Action::SetColor0)
        } else {
            None
        },
        Key::Char('1') => if c.plain() {
            Some(Action::SetColor1)
        } else {
            None
        },
        Key::Char('2') => if c.plain() {
            Some(Action::SetColor2)
        } else {
            None
        },
        Key::Char('3') => if c.plain() {
            Some(Action::SetColor3)
        } else {
            None
        },
        Key::Char('4') => if c.plain() {
            Some(Action::SetColor4)
        } else {
            None
        },
        Key::Char('5') => if c.plain() {
            Some(Action::SetColor5)
        } else {
            None
        },
        Key::Char('6') => if c.plain() {
            Some(Action::SetColor6)
        } else {
            None
        },
        _ => None,
    }
}

/// What a key means while editing only.
pub open spec fn edit_meaning(c: Chord) -> Option<Action> {
    match c.key {
        Key::Left => if c.plain() {
            Some(Action::CaretLeft)
        } else if c.alt() {
            Some(Action::CaretWordLeft)
        } else if c.shift() {
            Some(Action::SelectLeft)
        } else if c.alt_shift() {
            Some(Action::SelectWordLeft)
        } else {
            None
        },
        Key::Right => if c.plain() {
            Some(Action::CaretRight)
        } else if c.alt() {
            Some(Action::CaretWordRight)
        } else if c.shift() {
            Some(Action::SelectRight)
        } else if c.alt_shift() {
            Some(Action::SelectWordRight)
        } else {
            None
        },
        Key::Up => if c.plain() {
            Some(Action::CaretUp)
        } else if c.shift() {
            Some(Action::SelectUp)
        } else {
            None
        },
        Key::Down => if c.plain() {
            Some(Action::CaretDown)
        } else if c.shift() {
            Some(Action::SelectDown)
        } else {
            None
        },
        Key::Home => if c.shift() {
            Some(Action::SelectHome)
        } else if c.plain() {
            Some(Action::CaretHome)
        } else {
            None
        },
        Key::End => if c.shift() {
            Some(Action::SelectEnd)
        } else if c.plain() {
            Some(Action::CaretEnd)
        } else {
            None
        },
        Key::Char('a') => if c.cmd() {
            Some(Action::SelectAll)
        } else {
            None
        },
        Key::Char('x') => if c.cmd() {
            Some(Action::CutText)
        } else {
            None
        },
        Key::Char('c') => if c.cmd() {
            Some(Action::CopyText)
        } else {
            None
        },
        Key::Char('v') => if c.cmd() {
            Some(Action::PasteText)
        } else {
            None
        },
        Key::Enter => if c.shift() {
            Some(Action::InsertNewline)
        } else {
            None
        },
        Key::Backspace => if c.plain() {
            Some(Action::Backspace)
        } else if c.alt() {
            Some(Action::DeleteWordLeft)
        } else if c.cmd() {
            Some(Action::ClearFocusText)
        } else {
            None
        },
        Key::Delete => if c.plain() {
            Some(Action::DeleteForward)
        } else {
            None
        },
        _ => None,
    }
}

/// What a key means while the find field has the keyboard.
pub open spec fn find_meaning(c: Chord) -> Option<Action> {
    match c.key {
        Key::Enter => if c.plain() {
            Some(Action::FindNext)
        } else if c.shift() {
            Some(Action::FindPrev)
        } else if c.cmd() {
            Some(Action::FindReplaceAll)
        } else {
            None
        },
        Key::Backspace => if c.plain() {
            Some(Action::FindBackspace)
        } else {
            None
        },
        Key::Tab => if c.plain() {
            Some(Action::FindToggleReplace)
        } else {
            None
        },
        _ => None,
    }
}

/// What a key means while the shortcut panel is up.
pub open spec fn help_meaning(c: Chord) -> Option<Action> {
    match c.key {
        Key::Backspace => if c.plain() {
            Some(Action::HelpBackspace)
        } else {
            None
        },
        _ => None,
    }
}

/// What a chord means where a binding of kind `when` holds.
pub open spec fn meaning_in(when: Where, c: Chord) -> Option<Action> {
    match when {
        Where::Browse => browse_meaning(c),
        Where::Edit => edit_meaning(c),
        Where::Driving => driving_meaning(c),
        Where::Anywhere => anywhere_meaning(c),
        Where::Session => session_meaning(c),
        Where::Find => find_meaning(c),
        Where::Help => help_meaning(c),
    }
}

/// No chord means two things in one mode: of the kinds of binding that hold there,
/// one at most has a meaning for it.
pub proof fn no_chord_means_two_things(c: Chord, mode: KeyMode, a: Where, b: Where)
    requires
        live(a, mode),
        live(b, mode),
        meaning_in(a, c) is Some,
        meaning_in(b, c) is Some,
    ensures
        a == b,
{
}

/// A row that binds `c`.
pub open spec fn binds(rows: Seq<Binding>, c: Chord) -> bool {
    exists|i: int| 0 <= i < rows.len() && (#[trigger] rows[i]).chord == c
}

/// `rows` says what every chord means where bindings of kind `when` hold, and
/// nothing else.
pub open spec fn tells(rows: Seq<Binding>, when: Where) -> bool {
    &&& forall|i: int|
        0 <= i < rows.len() ==> (#[trigger] rows[i]).when == when && meaning_in(when, rows[i].chord)
            == Some(rows[i].action)
    &&& forall|c: Chord| #[trigger] meaning_in(when, c) is Some ==> binds(rows, c)
}

fn plain(key: Key, action: Action, when: Where) -> (r: Binding)
    ensures
        r == (Binding {
            chord: Chord { cmd: false, ctrl: false, alt: false, shift: false, key },
            action,
            when,
        }),
{
    Binding {
        chord: Chord { cmd: false, ctrl: false, alt: false, shift: false, key },
        action,
        when,
    }
}

fn cmd(key: Key, action: Action, when: Where) -> (r: Binding)
    ensures
        r == (Binding {
            chord: Chord { cmd: true, ctrl: false, alt: false, shift: false, key },
            action,
            when,
        }),
{
    Binding {
        chord: Chord { cmd: true, ctrl: false, alt: false, shift: false, key },
        action,
        when,
    }
}

fn shift(key: Key, action: Action, when: Where) -> (r: Binding)
    ensures
        r == (Binding {
            chord: Chord { cmd: false, ctrl: false, alt: false, shift: true, key },
            action,
            when,
        }),
{
    Binding {
        chord: Chord { cmd: false, ctrl: false, alt: false, shift: true, key },
        action,
        when,
    }
}

fn alt(key: Key, action: Action, when: Where) -> (r: Binding)
    ensures
        r == (Binding {
            chord: Chord { cmd: false, ctrl: false, alt: true, shift: false, key },
            action,
            when,
        }),
{
    Binding {
        chord: Chord { cmd: false, ctrl: false, alt: true, shift: false, key },
        action,
        when,
    }
}

fn cmd_shift(key: Key, action: Action, when: Where) -> (r: Binding)
    ensures
        r == (Binding {
            chord: Chord { cmd: true, ctrl: false, alt: false, shift: true, key },
            action,
            when,
        }),
{
    Binding {
        chord: Chord { cmd: true, ctrl: false, alt: false, shift: true, key },
        action,
        when,
    }
}

fn cmd_alt(key: Key, action: Action, when: Where) -> (r: Binding)
    ensures
        r == (Binding {
            chord: Chord { cmd: true, ctrl: false, alt: true, shift: false, key },
            action,
            when,
        }),
{
    Binding {
        chord: Chord { cmd: true, ctrl: false, alt: true, shift: false, key },
        action,
        when,
    }
}

fn alt_shift(key: Key, action: Action, when: Where) -> (r: Binding)
    ensures
        r == (Binding {
            chord: Chord { cmd: false, ctrl: false, alt: true, shift: true, key },
            action,
            when,
        }),
{
    Binding {
        chord: Chord { cmd: false, ctrl: false, alt: true, shift: true, key },
        action,
        when,
    }
}

fn ctrl_cmd(key: Key, action: Action, when: Where) -> (r: Binding)
    ensures
        r == (Binding {
            chord: Chord { cmd: true, ctrl: true, alt: false, shift: false, key },
            action,
            when,
        }),
{
    Binding {
        chord: Chord { cmd: true, ctrl: true, alt: false, shift: false, key },
        action,
        when,
    }
}

fn anywhere_keys() -> (r: Vec<Binding>)
    ensures
        tells(r@, Where::Anywhere),
{
    let w = Where::Anywhere;
    let r = vec![
        cmd(Key::Char('g'), Action::FindNext, w),
        cmd_shift(Key::Char('g'), Action::FindPrev, w),
        plain(Key::Escape, Action::Escape, w),
        cmd(Key::Char('q'), Action::Quit, w),
        cmd(Key::Char('h'), Action::HideApp, w),
        cmd_alt(Key::Char('h'), Action::HideOthers, w),
        cmd(Key::Char('m'), Action::MinimizeWindow, w),
        ctrl_cmd(Key::Char('f'), Action::ToggleFullScreen, w),
        cmd(Key::Char('w'), Action::CloseWindow, w),
    ];
    proof {
        assert(binds(r@, r@[0].chord));
        assert(binds(r@, r@[1].chord));
        assert(binds(r@, r@[2].chord));
        assert(binds(r@, r@[3].chord));
        assert(binds(r@, r@[4].chord));
        assert(binds(r@, r@[5].chord));
        assert(binds(r@, r@[6].chord));
        assert(binds(r@, r@[7].chord));
        assert(binds(r@, r@[8].chord));
        assert forall|c: Chord| #[trigger] meaning_in(w, c) is Some implies binds(r@, c) by {}
    }
    r
}

fn session_keys() -> (r: Vec<Binding>)
    ensures
        tells(r@, Where::Session),
{
    let w = Where::Session;
    let r = vec![
        cmd_shift(Key::Char('='), Action::ZoomIn, w),
        cmd(Key::Char('z'), Action::Undo, w),
        cmd_shift(Key::Char('z'), Action::Redo, w),
        cmd(Key::Char(','), Action::ToggleHelp, w),
    ];
    proof {
        assert(binds(r@, r@[0].chord));
        assert(binds(r@, r@[1].chord));
        assert(binds(r@, r@[2].chord));
        assert(binds(r@, r@[3].chord));
        assert forall|c: Chord| #[trigger] meaning_in(w, c) is Some implies binds(r@, c) by {}
    }
    r
}

fn driving_keys() -> (r: Vec<Binding>)
    ensures
        tells(r@, Where::Driving),
{
    let w = Where::Driving;
    let r = vec![
        cmd(Key::Right, Action::CreateRight, w),
        cmd(Key::Left, Action::CreateLeft, w),
        cmd(Key::Up, Action::CreateUp, w),
        cmd(Key::Down, Action::CreateDown, w),
        cmd_shift(Key::Backspace, Action::DeleteNode, w),
        cmd(Key::Enter, Action::CreateChild, w),
        cmd_shift(Key::Enter, Action::CreateSibling, w),
        cmd_alt(Key::Left, Action::NudgeLeft, w),
        cmd_alt(Key::Right, Action::NudgeRight, w),
        cmd_alt(Key::Up, Action::NudgeUp, w),
        cmd_alt(Key::Down, Action::NudgeDown, w),
        plain(Key::Enter, Action::Commit, w),
    ];
    proof {
        assert(binds(r@, r@[0].chord));
        assert(binds(r@, r@[1].chord));
        assert(binds(r@, r@[2].chord));
        assert(binds(r@, r@[3].chord));
        assert(binds(r@, r@[4].chord));
        assert(binds(r@, r@[5].chord));
        assert(binds(r@, r@[6].chord));
        assert(binds(r@, r@[7].chord));
        assert(binds(r@, r@[8].chord));
        assert(binds(r@, r@[9].chord));
        assert(binds(r@, r@[10].chord));
        assert(binds(r@, r@[11].chord));
        assert forall|c: Chord| #[trigger] meaning_in(w, c) is Some implies binds(r@, c) by {}
    }
    r
}

fn browse_keys() -> (r: Vec<Binding>)
    ensures
        tells(r@, Where::Browse),
{
    let w = Where::Browse;
    let r = vec![
        plain(Key::Left, Action::NudgeLeft, w),
        plain(Key::Right, Action::NudgeRight, w),
        plain(Key::Up, Action::NudgeUp, w),
        plain(Key::Down, Action::NudgeDown, w),
        shift(Key::Left, Action::NudgeLeftBig, w),
        shift(Key::Right, Action::NudgeRightBig, w),
        shift(Key::Up, Action::NudgeUpBig, w),
        shift(Key::Down, Action::NudgeDownBig, w),
        alt(Key::Left, Action::NavLeft, w),
        alt(Key::Right, Action::NavRight, w),
        alt(Key::Up, Action::NavUp, w),
        alt(Key::Down, Action::NavDown, w),
        plain(Key::Tab, Action::CreateChild, w),
        shift(Key::Tab, Action::CreateSibling, w),
        alt_shift(Key::Up, Action::MoveSiblingUp, w),
        alt_shift(Key::Down, Action::MoveSiblingDown, w),
        alt_shift(Key::Left, Action::Outdent, w),
        alt_shift(Key::Right, Action::Indent, w),
        plain(Key::Home, Action::FocusRoot, w),
        plain(Key::End, Action::FocusLast, w),
        cmd(Key::Char('a'), Action::SelectAllNodes, w),
        cmd(Key::Char('x'), Action::CutNodes, w),
        cmd(Key::Char('c'), Action::CopyNodes, w),
        cmd(Key::Char('v'), Action::PasteNodes, w),
        plain(Key::Backspace, Action::DeleteNode, w),
        plain(Key::Delete, Action::DeleteNode, w),
        plain(Key::Char('0'), Action::SetColor0, w),
        plain(Key::Char('1'), Action::SetColor1, w),
        plain(Key::Char('2'), Action::SetColor2, w),
        plain(Key::Char('3'), Action::SetColor3, w),
        plain(Key::Char('4'), Action::SetColor4, w),
        plain(Key::Char('5'), Action::SetColor5, w),
        plain(Key::Char('6'), Action::SetColor6, w),
    ];
    proof {
        assert(binds(r@, r@[0].chord));
        assert(binds(r@, r@[1].chord));
        assert(binds(r@, r@[2].chord));
        assert(binds(r@, r@[3].chord));
        assert(binds(r@, r@[4].chord));
        assert(binds(r@, r@[5].chord));
        assert(binds(r@, r@[6].chord));
        assert(binds(r@, r@[7].chord));
        assert(binds(r@, r@[8].chord));
        assert(binds(r@, r@[9].chord));
        assert(binds(r@, r@[10].chord));
        assert(binds(r@, r@[11].chord));
        assert(binds(r@, r@[12].chord));
        assert(binds(r@, r@[13].chord));
        assert(binds(r@, r@[14].chord));
        assert(binds(r@, r@[15].chord));
        assert(binds(r@, r@[16].chord));
        assert(binds(r@, r@[17].chord));
        assert(binds(r@, r@[18].chord));
        assert(binds(r@, r@[19].chord));
        assert(binds(r@, r@[20].chord));
        assert(binds(r@, r@[21].chord));
        assert(binds(r@, r@[22].chord));
        assert(binds(r@, r@[23].chord));
        assert(binds(r@, r@[24].chord));
        assert(binds(r@, r@[25].chord));
        assert(binds(r@, r@[26].chord));
        assert(binds(r@, r@[27].chord));
        assert(binds(r@, r@[28].chord));
        assert(binds(r@, r@[29].chord));
        assert(binds(r@, r@[30].chord));
        assert(binds(r@, r@[31].chord));
        assert(binds(r@, r@[32].chord));
        assert forall|c: Chord| #[trigger] meaning_in(w, c) is Some implies binds(r@, c) by {}
    }
    r
}

fn edit_keys() -> (r: Vec<Binding>)
    ensures
        tells(r@, Where::Edit),
{
    let w = Where::Edit;
    let r = vec![
        plain(Key::Left, Action::CaretLeft, w),
        plain(Key::Right, Action::CaretRight, w),
        plain(Key::Up, Action::CaretUp, w),
        plain(Key::Down, Action::CaretDown, w),
        alt(Key::Left, Action::CaretWordLeft, w),
        alt(Key::Right, Action::CaretWordRight, w),
        shift(Key::Left, Action::SelectLeft, w),
        shift(Key::Right, Action::SelectRight, w),
        shift(Key::Up, Action::SelectUp, w),
        shift(Key::Down, Action::SelectDown, w),
        alt_shift(Key::Left, Action::SelectWordLeft, w),
        alt_shift(Key::Right, Action::SelectWordRight, w),
        shift(Key::Home, Action::SelectHome, w),
        shift(Key::End, Action::SelectEnd, w),
        cmd(Key::Char('a'), Action::SelectAll, w),
        cmd(Key::Char('x'), Action::CutText, w),
        cmd(Key::Char('c'), Action::CopyText, w),
        cmd(Key::Char('v'), Action::PasteText, w),
        shift(Key::Enter, Action::InsertNewline, w),
        plain(Key::Backspace, Action::Backspace, w),
        plain(Key::Delete, Action::DeleteForward, w),
        alt(Key::Backspace, Action::DeleteWordLeft, w),
        cmd(Key::Backspace, Action::ClearFocusText, w),
        plain(Key::Home, Action::CaretHome, w),
        plain(Key::End, Action::CaretEnd, w),
    ];
    proof {
        assert(binds(r@, r@[0].chord));
        assert(binds(r@, r@[1].chord));
        assert(binds(r@, r@[2].chord));
        assert(binds(r@, r@[3].chord));
        assert(binds(r@, r@[4].chord));
        assert(binds(r@, r@[5].chord));
        assert(binds(r@, r@[6].chord));
        assert(binds(r@, r@[7].chord));
        assert(binds(r@, r@[8].chord));
        assert(binds(r@, r@[9].chord));
        assert(binds(r@, r@[10].chord));
        assert(binds(r@, r@[11].chord));
        assert(binds(r@, r@[12].chord));
        assert(binds(r@, r@[13].chord));
        assert(binds(r@, r@[14].chord));
        assert(binds(r@, r@[15].chord));
        assert(binds(r@, r@[16].chord));
        assert(binds(r@, r@[17].chord));
        assert(binds(r@, r@[18].chord));
        assert(binds(r@, r@[19].chord));
        assert(binds(r@, r@[20].chord));
        assert(binds(r@, r@[21].chord));
        assert(binds(r@, r@[22].chord));
        assert(binds(r@, r@[23].chord));
        assert(binds(r@, r@[24].chord));
        assert forall|c: Chord| #[trigger] meaning_in(w, c) is Some implies binds(r@, c) by {}
    }
    r
}

fn find_keys() -> (r: Vec<Binding>)
    ensures
        tells(r@, Where::Find),
{
    let w = Where::Find;
    let r = vec![
        plain(Key::Enter, Action::FindNext, w),
        shift(Key::Enter, Action::FindPrev, w),
        plain(Key::Backspace, Action::FindBackspace, w),
        plain(Key::Tab, Action::FindToggleReplace, w),
        cmd(Key::Enter, Action::FindReplaceAll, w),
    ];
    proof {
        assert(binds(r@, r@[0].chord));
        assert(binds(r@, r@[1].chord));
        assert(binds(r@, r@[2].chord));
        assert(binds(r@, r@[3].chord));
        assert(binds(r@, r@[4].chord));
        assert forall|c: Chord| #[trigger] meaning_in(w, c) is Some implies binds(r@, c) by {}
    }
    r
}

fn help_keys() -> (r: Vec<Binding>)
    ensures
        tells(r@, Where::Help),
{
    let w = Where::Help;
    let r = vec![
        plain(Key::Backspace, Action::HelpBackspace, w),
    ];
    proof {
        assert(binds(r@, r@[0].chord));
        assert forall|c: Chord| #[trigger] meaning_in(w, c) is Some implies binds(r@, c) by {}
    }
    r
}

/// The bindings that are the app's grammar and are not up for customising: the
/// arrows, the caret, the clipboard, delete.
pub fn bind_fixed() -> (r: Vec<Binding>)
    ensures
        forall|i: int|
            0 <= i < r@.len() ==> meaning_in((#[trigger] r@[i]).when, r@[i].chord) == Some(
                r@[i].action,
            ),
        forall|w: Where, c: Chord| #[trigger]
            meaning_in(w, c) is Some ==> exists|i: int|
                0 <= i < r@.len() && (#[trigger] r@[i]).when == w && r@[i].chord == c,
{
    let mut r: Vec<Binding> = Vec::new();
    let mut anywhere = anywhere_keys();
    let ghost anywhere_rows = anywhere@;
    r.append(&mut anywhere);
    let mut session = session_keys();
    let ghost session_rows = session@;
    r.append(&mut session);
    let mut driving = driving_keys();
    let ghost driving_rows = driving@;
    r.append(&mut driving);
    let mut browse = browse_keys();
    let ghost browse_rows = browse@;
    r.append(&mut browse);
    let mut edit = edit_keys();
    let ghost edit_rows = edit@;
    r.append(&mut edit);
    let mut find = find_keys();
    let ghost find_rows = find@;
    r.append(&mut find);
    let mut help = help_keys();
    let ghost help_rows = help@;
    r.append(&mut help);
    proof {
        let anywhere_at = 0int;
        assert forall|i: int| 0 <= i < anywhere_rows.len() implies #[trigger] r@[anywhere_at + i] == anywhere_rows[i] by {}
        let session_at = anywhere_rows.len();
        assert forall|i: int| 0 <= i < session_rows.len() implies #[trigger] r@[session_at + i] == session_rows[i] by {}
        let driving_at = anywhere_rows.len() + session_rows.len();
        assert forall|i: int| 0 <= i < driving_rows.len() implies #[trigger] r@[driving_at + i] == driving_rows[i] by {}
        let browse_at = anywhere_rows.len() + session_rows.len() + driving_rows.len();
        assert forall|i: int| 0 <= i < browse_rows.len() implies #[trigger] r@[browse_at + i] == browse_rows[i] by {}
        let edit_at = anywhere_rows.len() + session_rows.len() + driving_rows.len() + browse_rows.len();
        assert forall|i: int| 0 <= i < edit_rows.len() implies #[trigger] r@[edit_at + i] == edit_rows[i] by {}
        let find_at = anywhere_rows.len() + session_rows.len() + driving_rows.len() + browse_rows.len() + edit_rows.len();
        assert forall|i: int| 0 <= i < find_rows.len() implies #[trigger] r@[find_at + i] == find_rows[i] by {}
        let help_at = anywhere_rows.len() + session_rows.len() + driving_rows.len() + browse_rows.len() + edit_rows.len() + find_rows.len();
        assert forall|i: int| 0 <= i < help_rows.len() implies #[trigger] r@[help_at + i] == help_rows[i] by {}
        assert forall|w: Where, c: Chord| #[trigger] meaning_in(w, c) is Some implies exists|i: int|
            0 <= i < r@.len() && (#[trigger] r@[i]).when == w && r@[i].chord == c by {
            match w {
                Where::Anywhere => {
                    let i = choose|i: int| 0 <= i < anywhere_rows.len() && (#[trigger] anywhere_rows[i]).chord == c;
                    assert(r@[anywhere_at + i] == anywhere_rows[i]);
                },
                Where::Session => {
                    let i = choose|i: int| 0 <= i < session_rows.len() && (#[trigger] session_rows[i]).chord == c;
                    assert(r@[session_at + i] == session_rows[i]);
                },
                Where::Driving => {
                    let i = choose|i: int| 0 <= i < driving_rows.len() && (#[trigger] driving_rows[i]).chord == c;
                    assert(r@[driving_at + i] == driving_rows[i]);
                },
                Where::Browse => {
                    let i = choose|i: int| 0 <= i < browse_rows.len() && (#[trigger] browse_rows[i]).chord == c;
                    assert(r@[browse_at + i] == browse_rows[i]);
                },
                Where::Edit => {
                    let i = choose|i: int| 0 <= i < edit_rows.len() && (#[trigger] edit_rows[i]).chord == c;
                    assert(r@[edit_at + i] == edit_rows[i]);
                },
                Where::Find => {
                    let i = choose|i: int| 0 <= i < find_rows.len() && (#[trigger] find_rows[i]).chord == c;
                    assert(r@[find_at + i] == find_rows[i]);
                },
                Where::Help => {
                    let i = choose|i: int| 0 <= i < help_rows.len() && (#[trigger] help_rows[i]).chord == c;
                    assert(r@[help_at + i] == help_rows[i]);
                },
            }
        }
    }
    r
}

/// What a chord does in a mode, by the bindings that are not up for customising.
pub fn look_up(c: Chord, mode: KeyMode) -> (r: Option<Action>)
    ensures
        r matches Some(a) ==> exists|w: Where| live(w, mode) && #[trigger] meaning_in(w, c) == Some(a),
        r is None ==> forall|w: Where| live(w, mode) ==> #[trigger] meaning_in(w, c) is None,
{
    let rows = bind_fixed();
    let mut i: usize = 0;
    while i < rows.len()
        invariant
            i <= rows@.len(),
            forall|k: int|
                0 <= k < rows@.len() ==> meaning_in((#[trigger] rows@[k]).when, rows@[k].chord)
                    == Some(rows@[k].action),
            forall|w: Where, c: Chord| #[trigger]
                meaning_in(w, c) is Some ==> exists|i: int|
                    0 <= i < rows@.len() && (#[trigger] rows@[i]).when == w && rows@[i].chord == c,
            forall|k: int|
                0 <= k < i ==> !((#[trigger] rows@[k]).chord == c && live(rows@[k].when, mode)),
        decreases rows@.len() - i,
    {
        let row = rows[i];
        if row.chord == c && is_live(row.when, mode) {
            assert(meaning_in(rows@[i as int].when, rows@[i as int].chord) == Some(row.action));
            return Some(row.action);
        }
        i = i + 1;
    }
    None
}

} // verus!
