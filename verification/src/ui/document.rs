//! The document and its file: which map a session begins with, what opening,
//! reverting and saving come to, and what the window is called.

use vstd::prelude::*;
use crate::coord::Coord;
use crate::graph::demo;
use crate::graph::model::GraphModel;
use crate::graph::model;
use crate::graph::tidy;
use crate::graph::{Direction, Graph, Mode};
use crate::history::{History, HistoryModel};
use crate::paths;
use crate::store::{Doc, Load, Pose, WindowRect};
use crate::text;
use crate::theme;
use crate::theme::Theme;
use crate::ui::editor::Editor;

verus! {

/// What a session begins with, and whether it owns a file.
pub struct Startup {
    pub graph: Graph,
    pub pose: Option<Pose>,
    pub window: Option<WindowRect>,
    pub theme: Theme,
    /// The file of the document. Without one this session writes nothing.
    pub path: Option<String>,
    /// Why it writes nothing, if that has to be said.
    pub warning: Option<String>,
}

/// A session that owns no file.
pub open spec fn scratch(s: Startup) -> bool {
    s.pose is None && s.window is None && s.theme == theme::palette(false) && s.path is None
}

/// The map that shows what maps can be.
pub open spec fn shows_demo<C: Fn(Coord, Coord, Coord) -> Coord>(r: GraphModel, carry: &C) -> bool {
    &&& demo::is_demo(r)
    &&& exists|g: GraphModel, h: GraphModel|
        demo::is_demo(g) && #[trigger] tidy::tidied(g, h, carry) && r.nodes == h.nodes
    &&& r.focus == 1
    &&& r.selected == set![1u64]
    &&& r.edge_focus is None
    &&& r.mode == Mode::Browse
}

/// What a session begins with. `found` is the file to be opened and what came of
/// reading it; there is none where there is nowhere to keep one. A file that
/// cannot be read is left alone: the session is a scratch one.
pub fn startup<
    P: Fn(&Graph, u64, Direction) -> (Coord, Coord),
    C: Fn(Coord, Coord, Coord) -> Coord,
>(demo: bool, empty: bool, found: Option<(String, Load)>, place: &P, carry: &C) -> (r: Startup)
    requires
        forall|g: &Graph, p: u64, d: Direction| #[trigger] place.requires((g, p, d)),
        forall|a: Coord, b: Coord, c: Coord| #[trigger] carry.requires((a, b, c)),
    ensures
        demo ==> scratch(r) && shows_demo(r.graph@, carry) && r.warning is None,
        !demo && empty ==> scratch(r) && r.graph@ == model::new_map(""@) && r.warning is None,
        !demo && !empty ==> match found {
            None => scratch(r) && shows_demo(r.graph@, carry) && r.warning is Some && r.warning->0@
                == "no home directory to save into"@,
            Some((path, Load::Opened(doc))) => {
                &&& r.graph@ == doc.graph@
                &&& r.pose == doc.camera
                &&& r.window == doc.window
                &&& r.theme == theme::palette(doc.dark)
                &&& r.path is Some && r.path->0@ == path@
                &&& r.warning is None
            },
            Some((path, Load::Fresh)) => {
                &&& r.graph@ == model::new_map("My first idea"@)
                &&& r.pose is None
                &&& r.window is None
                &&& r.theme == theme::palette(false)
                &&& r.path is Some && r.path->0@ == path@
                &&& r.warning is None
            },
            Some((path, Load::Unreadable(why))) => scratch(r) && r.graph@ == model::new_map(""@)
                && r.warning is Some && r.warning->0@ == why@,
        },
{
    if demo {
        return Startup {
            graph: Graph::demo(place, carry),
            pose: None,
            window: None,
            theme: Theme::from_dark(false),
            path: None,
            warning: None,
        };
    }
    if empty {
        return Startup {
            graph: Graph::new(""),
            pose: None,
            window: None,
            theme: Theme::from_dark(false),
            path: None,
            warning: None,
        };
    }
    match found {
        None => Startup {
            graph: Graph::demo(place, carry),
            pose: None,
            window: None,
            theme: Theme::from_dark(false),
            path: None,
            warning: Some("no home directory to save into".to_owned()),
        },
        Some((path, Load::Opened(doc))) => Startup {
            graph: doc.graph,
            pose: doc.camera,
            window: doc.window,
            theme: Theme::from_dark(doc.dark),
            path: Some(path),
            warning: None,
        },
        Some((path, Load::Fresh)) => Startup {
            graph: Graph::new("My first idea"),
            pose: None,
            window: None,
            theme: Theme::from_dark(false),
            path: Some(path),
            warning: None,
        },
        Some((_, Load::Unreadable(why))) => Startup {
            graph: Graph::new(""),
            pose: None,
            window: None,
            theme: Theme::from_dark(false),
            path: None,
            warning: Some(why),
        },
    }
}

impl Editor {
    /// The editor of a document that is taken up in place of another: nothing can
    /// be undone across the two. A blank one is ready to be typed into.
    pub fn adopt(graph: Graph, edit: bool) -> (r: Editor)
        ensures
            r@.graph == (if edit {
                (GraphModel { mode: Mode::Edit, ..graph@ }).caret_at_end()
            } else {
                graph@.browsing()
            }),
            r@.history == (HistoryModel { past: seq![], future: seq![], last: None }),
    {
        let mut graph = graph;
        if edit {
            graph.enter_edit();
        } else {
            graph.leave_edit();
        }
        Editor { graph, history: History::new() }
    }
}

/// What opening another document comes to.
pub enum Opening {
    /// It takes the place of the one that is open.
    Taken(Doc),
    /// The one that is open stays, and this is said.
    Kept(String),
}

/// Whether a path is the one that is open.
pub fn is_open(open: &Option<String>, path: &str) -> (r: bool)
    ensures
        r == (open is Some && paths::same_path(open->0@, path@)),
{
    match open {
        Some(p) => paths::is_same(p.as_str(), path),
        None => false,
    }
}

/// What opening the file at `path` comes to, given what came of reading it. A
/// file that is not there or cannot be read is never taken for an empty map: that
/// could be written over it.
pub fn open_document(path: &str, load: Load) -> (r: Opening)
    ensures
        match load {
            Load::Opened(doc) => r matches Opening::Taken(d) && d@ == doc@,
            Load::Fresh => r matches Opening::Kept(m) && m@ == "nothing at "@ + path@,
            Load::Unreadable(why) => r matches Opening::Kept(m) && m@ == why@,
        },
{
    match load {
        Load::Opened(doc) => Opening::Taken(doc),
        Load::Fresh => {
            let mut m = "nothing at ".to_owned();
            m.push_str(path);
            Opening::Kept(m)
        },
        Load::Unreadable(why) => Opening::Kept(why),
    }
}

/// Whether a save that was asked for can be tried.
pub enum SaveNow {
    /// It cannot, and this is said.
    Refused(String),
    Write,
}

/// What a save that was asked for comes to before anything is written: a session
/// that opened read-only says why, and a scratch map is not saved.
pub fn save_now(read_only: &Option<String>, has_path: bool) -> (r: SaveNow)
    ensures
        match *read_only {
            Some(why) => r matches SaveNow::Refused(m) && m@ == why@,
            None => if has_path {
                r is Write
            } else {
                r matches SaveNow::Refused(m) && m@
                    == "scratch map · not saved (run without --demo/--empty)"@
            },
        },
{
    match read_only {
        Some(why) => SaveNow::Refused(why.clone()),
        None => if has_path {
            SaveNow::Write
        } else {
            SaveNow::Refused("scratch map · not saved (run without --demo/--empty)".to_owned())
        },
    }
}

/// What is known of the file after it was to be written.
pub struct Saved {
    /// The map is still to be saved.
    pub unsaved: bool,
    /// Why it could not be; this stays on the screen.
    pub error: Option<String>,
}

/// What is known after writing. A write that failed is tried again; without a
/// file there is nothing to write, and what was said before stands.
pub fn after_write(wrote: Option<Result<(), String>>, before: Option<String>) -> (r: Saved)
    ensures
        match wrote {
            None => !r.unsaved && r.error == before,
            Some(Ok(_)) => !r.unsaved && r.error is None,
            Some(Err(why)) => r.unsaved && r.error is Some && r.error->0@ == why@,
        },
{
    match wrote {
        None => Saved { unsaved: false, error: before },
        Some(Ok(_)) => Saved { unsaved: false, error: None },
        Some(Err(why)) => Saved { unsaved: true, error: Some(why) },
    }
}

/// The name of a document without its extension, if its file has a name.
pub open spec fn stem_of(path: Option<Seq<char>>) -> Option<Seq<char>> {
    match path {
        Some(p) => match paths::file_name(p) {
            Some(name) => Some(paths::stem(name)),
            None => None,
        },
        None => None,
    }
}

fn stem(path: &Option<String>) -> (r: Option<String>)
    ensures
        match r {
            Some(s) => path is Some && stem_of(Some(path->0@)) == Some(s@),
            None => path is None || stem_of(Some(path->0@)) is None,
        },
{
    match path {
        Some(p) => paths::file_stem(p.as_str()),
        None => None,
    }
}

pub open spec fn path_view(path: Option<String>) -> Option<Seq<char>> {
    match path {
        Some(p) => Some(p@),
        None => None,
    }
}

/// What an exported file is called before its extension.
pub fn doc_stem(path: &Option<String>) -> (r: String)
    ensures
        r@ == (match stem_of(path_view(*path)) {
            Some(s) => s,
            None => "map"@,
        }),
{
    match stem(path) {
        Some(s) => s,
        None => "map".to_owned(),
    }
}

/// What the window is called: the document's name, with a dot in front while
/// there are changes to save.
pub open spec fn title_of(path: Option<Seq<char>>, unsaved: bool) -> Seq<char> {
    let name = match stem_of(path) {
        Some(s) => if s.len() > 0 {
            s
        } else {
            "Untitled"@
        },
        None => "Untitled"@,
    };
    if unsaved {
        "• "@ + name
    } else {
        name
    }
}

pub fn window_title(path: &Option<String>, unsaved: bool) -> (r: String)
    ensures
        r@ == title_of(path_view(*path), unsaved),
{
    let name: String = match stem(path) {
        Some(s) => if text::chars(s.as_str()).len() > 0 {
            s
        } else {
            "Untitled".to_owned()
        },
        None => "Untitled".to_owned(),
    };
    if unsaved {
        let mut t = "• ".to_owned();
        t.push_str(name.as_str());
        t
    } else {
        name
    }
}

/// `word` for one and `words` for any other number: the letter that is added.
pub fn plural(n: usize) -> (r: &'static str)
    ensures
        r@ == (if n == 1 {
            ""@
        } else {
            "s"@
        }),
{
    if n == 1 {
        ""
    } else {
        "s"
    }
}

} // verus!
