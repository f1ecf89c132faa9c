//! The document: the map, where the camera was parked, the theme and the window;
//! where documents are kept, and which of them are remembered.

use vstd::prelude::*;
use crate::coord::Coord;
use crate::graph::model::GraphModel;
use crate::graph::sanitize;
use crate::graph::settled;
use crate::graph::Graph;
use crate::{coord, dev, paths, text};

verus! {

// ---------------------------------------------------------------------------
// Where things are kept
// ---------------------------------------------------------------------------

/// Where the app keeps the maps it made itself, its recents list and its keymap.
pub open spec fn data_of(home: Seq<char>, mac: bool, dev: bool) -> Seq<char> {
    let base = if mac {
        paths::joined(paths::joined(home, "Library"@), "Application Support"@)
    } else {
        paths::joined(paths::joined(home, ".local"@), "share"@)
    };
    paths::joined(base, dev::folder_of(dev))
}

/// Where the app keeps the maps it made itself, its recents list and its keymap.
/// Everything persisted hangs off this one directory.
pub fn data_dir(home: &str, mac: bool, dev: bool) -> (r: String)
    ensures
        r@ == data_of(home@, mac, dev),
{
    let base = if mac {
        let library = paths::join(home, "Library");
        paths::join(library.as_str(), "Application Support")
    } else {
        let local = paths::join(home, ".local");
        paths::join(local.as_str(), "share")
    };
    paths::join(base.as_str(), dev::folder(dev))
}

/// The directory the image store sits in: one store for the app, not one per
/// document.
pub fn images_root(home: &str, mac: bool, dev: bool) -> (r: String)
    ensures
        r@ == data_of(home@, mac, dev),
{
    data_dir(home, mac, dev)
}

/// The map you get when you have never opened anything else.
pub fn home_path(home: &str, mac: bool, dev: bool) -> (r: String)
    ensures
        r@ == paths::joined(data_of(home@, mac, dev), "map.json"@),
{
    let dir = data_dir(home, mac, dev);
    paths::join(dir.as_str(), "map.json")
}

/// Where the list of recent documents is kept.
pub fn recents_path(home: &str, mac: bool, dev: bool) -> (r: String)
    ensures
        r@ == paths::joined(data_of(home@, mac, dev), "recent.json"@),
{
    let dir = data_dir(home, mac, dev);
    paths::join(dir.as_str(), "recent.json")
}

/// Where the keyboard shortcuts are kept.
pub fn keymap_path(home: &str, mac: bool, dev: bool) -> (r: String)
    ensures
        r@ == paths::joined(data_of(home@, mac, dev), "keymap.json"@),
{
    let dir = data_dir(home, mac, dev);
    paths::join(dir.as_str(), "keymap.json")
}

/// The name of the `n`th new document.
pub open spec fn untitled(n: nat) -> Seq<char> {
    if n == 1 {
        "untitled.json"@
    } else {
        "untitled-"@ + text::decimal_chars(n) + ".json"@
    }
}

/// `asked` said `answer` of the path `path`.
pub open spec fn said<F: Fn(&String) -> bool>(asked: &F, path: Seq<char>, answer: bool) -> bool {
    exists|s: String| s@ == path && #[trigger] asked.ensures((&s,), answer)
}

/// `path` is that of the `n`th new document in `dir`. `taken` said that it is not
/// there, and that those before it are.
pub open spec fn first_free<F: Fn(&String) -> bool>(
    taken: &F,
    dir: Seq<char>,
    n: nat,
    path: Seq<char>,
) -> bool {
    &&& 1 <= n
    &&& path == paths::joined(dir, untitled(n))
    &&& said(taken, path, false)
    &&& forall|k: nat| 1 <= k < n ==> said(taken, #[trigger] paths::joined(dir, untitled(k)), true)
}

/// `taken` said of every path of a new document in `dir` that it is there, up to
/// the last number that a `u64` holds.
pub open spec fn all_taken<F: Fn(&String) -> bool>(taken: &F, dir: Seq<char>) -> bool {
    forall|k: nat|
        1 <= k < u64::MAX ==> said(taken, #[trigger] paths::joined(dir, untitled(k)), true)
}

/// An unused path in the data directory for a new document: `untitled.json`,
/// then `untitled-2.json`, and so on, the first that `taken` does not say is
/// there, so a new map never lands on top of one that is already there. `None`
/// only when there is no directory to write to, short of every number that a
/// `u64` holds being taken.
pub fn new_document_path<F: Fn(&String) -> bool>(dir: Option<&str>, taken: &F) -> (r: Option<
    String,
>)
    requires
        forall|s: String| #[trigger] taken.requires((&s,)),
    ensures
        match dir {
            Some(d) => match r {
                Some(p) => exists|n: nat| #[trigger] first_free(taken, d@, n, p@),
                None => all_taken(taken, d@),
            },
            None => r is None,
        },
{
    match dir {
        Some(d) => unused_in(d, taken),
        None => None,
    }
}

fn unused_in<F: Fn(&String) -> bool>(dir: &str, taken: &F) -> (r: Option<String>)
    requires
        forall|s: String| #[trigger] taken.requires((&s,)),
    ensures
        match r {
            Some(p) => exists|n: nat| #[trigger] first_free(taken, dir@, n, p@),
            None => all_taken(taken, dir@),
        },
{
    let mut n: u64 = 1;
    while n < u64::MAX
        invariant
            1 <= n,
            forall|s: String| #[trigger] taken.requires((&s,)),
            forall|k: nat|
                1 <= k < n ==> said(taken, #[trigger] paths::joined(dir@, untitled(k)), true),
        decreases u64::MAX - n,
    {
        let name = if n == 1 {
            "untitled.json".to_owned()
        } else {
            let mut name = "untitled-".to_owned();
            name.push_str(text::decimal(n).as_str());
            name.push_str(".json");
            name
        };
        assert(name@ == untitled(n as nat));
        let candidate = paths::join(dir, name.as_str());
        let there = taken(&candidate);
        assert(said(taken, candidate@, there));
        if !there {
            let r = Some(candidate);
            assert(first_free(taken, dir@, n as nat, r->0@));
            return r;
        }
        n = n + 1;
    }
    None
}

// ---------------------------------------------------------------------------
// Recent documents
// ---------------------------------------------------------------------------

/// How many documents the Open Recent menu remembers.
pub const MAX_RECENTS: usize = 8;

/// The characters of each text of a list.
pub open spec fn views(list: Seq<String>) -> Seq<Seq<char>> {
    list.map_values(|s: String| s@)
}

/// The paths of a list that are not `path`, in order.
pub open spec fn others(list: Seq<Seq<char>>, path: Seq<char>) -> Seq<Seq<char>> {
    list.filter(|p: Seq<char>| !paths::same_path(p, path))
}

/// A list without what goes beyond the number that is remembered.
pub open spec fn bounded(list: Seq<Seq<char>>) -> Seq<Seq<char>> {
    if list.len() > MAX_RECENTS {
        list.take(MAX_RECENTS as int)
    } else {
        list
    }
}

/// `path` at the head of `list`, once, with the tail bounded.
pub open spec fn promoted(list: Seq<Seq<char>>, path: Seq<char>) -> Seq<Seq<char>> {
    bounded(seq![path] + others(list, path))
}

/// `path` to the head, once, with the tail bounded.
pub fn promote(list: &Vec<String>, path: &str) -> (r: Vec<String>)
    ensures
        views(r@) == promoted(views(list@), path@),
{
    let mut out: Vec<String> = Vec::new();
    out.push(path.to_owned());
    let n: usize = list.len();
    let mut i: usize = 0;
    let ghost all = views(list@);
    assert(all.take(0) =~= seq![]);
    assert(others(all.take(0), path@) =~= seq![]) by {
        reveal_with_fuel(Seq::filter, 1);
    }
    assert(views(out@) =~= bounded(seq![path@] + others(all.take(0), path@)));
    while i < n
        invariant
            i <= n,
            n == list@.len(),
            all == views(list@),
            1 <= out@.len() <= MAX_RECENTS,
            views(out@) == bounded(seq![path@] + others(all.take(i as int), path@)),
        decreases n - i,
    {
        let same = paths::is_same(list[i].as_str(), path);
        let ghost before = others(all.take(i as int), path@);
        proof {
            let keep = |p: Seq<char>| !paths::same_path(p, path@);
            assert(all.take(i + 1).drop_last() =~= all.take(i as int));
            assert(all.take(i + 1).last() == list@[i as int]@);
            reveal(Seq::filter);
        }
        if !same {
            let ghost whole = seq![path@] + before;
            assert(others(all.take(i + 1), path@) == before.push(list@[i as int]@));
            assert(seq![path@] + before.push(list@[i as int]@) =~= whole.push(list@[i as int]@));
            let ghost was = out@;
            if out.len() < MAX_RECENTS {
                out.push(list[i].clone());
                assert(views(out@) =~= views(was).push(list@[i as int]@));
                assert(bounded(whole) == whole);
            } else {
                assert(whole.len() >= MAX_RECENTS);
                assert(bounded(whole.push(list@[i as int]@)) =~= bounded(whole));
            }
        } else {
            assert(others(all.take(i + 1), path@) == before);
        }
        i = i + 1;
    }
    assert(all.take(n as int) =~= all);
    out
}

proof fn lemma_among(list: Seq<Seq<char>>, path: Seq<char>, i: int)
    requires
        0 <= i < others(list, path).len(),
    ensures
        !paths::same_path(others(list, path)[i], path),
        list.contains(others(list, path)[i]),
    decreases list.len(),
{
    reveal(Seq::filter);
    let rest = list.drop_last();
    let x = others(list, path)[i];
    if i < others(rest, path).len() {
        lemma_among(rest, path, i);
        assert(others(rest, path)[i] == x);
        let k = choose|k: int| 0 <= k < rest.len() && rest[k] == x;
        assert(list[k] == x);
    } else {
        assert(list[list.len() - 1] == x);
    }
}

/// The path that was opened last comes first, it comes once, and the list stays
/// bounded.
pub proof fn promoting_keeps_the_list(list: Seq<Seq<char>>, path: Seq<char>)
    ensures
        promoted(list, path).len() <= MAX_RECENTS,
        promoted(list, path)[0] == path,
        forall|i: int|
            1 <= i < promoted(list, path).len() ==> !paths::same_path(
                #[trigger] promoted(list, path)[i],
                path,
            ) && list.contains(promoted(list, path)[i]),
{
    let rest = others(list, path);
    assert forall|i: int| 1 <= i < promoted(list, path).len() implies !paths::same_path(
        #[trigger] promoted(list, path)[i],
        path,
    ) && list.contains(promoted(list, path)[i]) by {
        assert(promoted(list, path)[i] == rest[i - 1]);
        lemma_among(list, path, i - 1);
    }
}

/// Which document a fresh launch opens: the one that is asked for, or else the
/// first of the recent ones that `there` says is a file, or else the home map.
pub fn startup_path<F: Fn(&String) -> bool>(
    asked: Option<String>,
    recents: &Vec<String>,
    home_map: String,
    there: &F,
) -> (r: String)
    requires
        forall|s: String| #[trigger] there.requires((&s,)),
    ensures
        match asked {
            Some(p) => r@ == p@,
            None => {
                ||| exists|i: int|
                    0 <= i < recents@.len() && r@ == (#[trigger] recents@[i])@ && there.ensures(
                        (&recents@[i],),
                        true,
                    ) && forall|k: int|
                        0 <= k < i ==> there.ensures((&(#[trigger] recents@[k]),), false)
                ||| r@ == home_map@ && forall|k: int|
                    0 <= k < recents@.len() ==> there.ensures((&(#[trigger] recents@[k]),), false)
            },
        },
{
    if let Some(p) = asked {
        return p;
    }
    let mut i: usize = 0;
    while i < recents.len()
        invariant
            i <= recents@.len(),
            asked is None,
            forall|s: String| #[trigger] there.requires((&s,)),
            forall|k: int| 0 <= k < i ==> there.ensures((&(#[trigger] recents@[k]),), false),
        decreases recents@.len() - i,
    {
        if there(&recents[i]) {
            return recents[i].clone();
        }
        i = i + 1;
    }
    home_map
}

/// What the Open Recent menu shows for a path.
pub open spec fn label_of(path: Seq<char>) -> Seq<char> {
    let name = match paths::file_name(path) {
        Some(name) => name,
        None => path,
    };
    match paths::folder_name(path) {
        Some(dir) => name + "  —  "@ + dir,
        None => name,
    }
}

/// What the Open Recent menu shows for a path: the file's own name, and the
/// folder it sits in.
pub fn recent_label(path: &str) -> (r: String)
    ensures
        r@ == label_of(path@),
{
    let (file, folder) = paths::names(path);
    let mut out = match file {
        Some(name) => name,
        None => path.to_owned(),
    };
    if let Some(dir) = folder {
        out.push_str("  —  ");
        out.push_str(dir.as_str());
    }
    out
}

// ---------------------------------------------------------------------------
// The document
// ---------------------------------------------------------------------------

/// Where the camera was left.
#[derive(Clone, Copy, Debug)]
pub struct Pose {
    pub x: Coord,
    pub y: Coord,
    pub zoom: Coord,
}

/// Where the window itself was left, in screen points.
#[derive(Clone, Copy, Debug)]
pub struct WindowRect {
    pub x: Coord,
    pub y: Coord,
    pub w: Coord,
    pub h: Coord,
}

/// The least width of a window, 320, as the bits of a coordinate.
pub const LEAST_WIDTH: u32 = 0x43A0_0000;

/// The least height of a window, 240.
pub const LEAST_HEIGHT: u32 = 0x4370_0000;

/// The greatest side of a window, 20000.
pub const GREATEST_SIDE: u32 = 0x469C_4000;

/// How far to the left of, or above, the main display a window can be, -20000.
pub const LEAST_CORNER: u32 = 0xC69C_4000;

/// How far to the right of, or below, the corner of the main display a window can
/// be, 20000.
pub const GREATEST_CORNER: u32 = 0x469C_4000;

impl Pose {
    /// A view that can be shown: made of numbers, and not shrunk to nothing.
    pub open spec fn shows(self) -> bool {
        self.x.finite() && self.y.finite() && self.zoom.finite() && self.zoom.rank() > 0
    }

    /// Whether the view can be shown.
    pub fn usable(self) -> (r: bool)
        ensures
            r == self.shows(),
    {
        self.x.is_finite() && self.y.is_finite() && self.zoom.is_finite() && self.zoom.order() > 0
    }
}

impl WindowRect {
    /// A frame that a window can have: made of numbers, where a display could be,
    /// and of a size that someone could reach.
    pub open spec fn fits(self) -> bool {
        &&& self.x.finite() && self.y.finite() && self.w.finite() && self.h.finite()
        &&& !self.x.below(Coord { bits: LEAST_CORNER })
        &&& !self.y.below(Coord { bits: LEAST_CORNER })
        &&& !(Coord { bits: GREATEST_CORNER }).below(self.x)
        &&& !(Coord { bits: GREATEST_CORNER }).below(self.y)
        &&& !self.w.below(Coord { bits: LEAST_WIDTH })
        &&& !self.h.below(Coord { bits: LEAST_HEIGHT })
        &&& !(Coord { bits: GREATEST_SIDE }).below(self.w)
        &&& !(Coord { bits: GREATEST_SIDE }).below(self.h)
    }

    /// Reject a saved rectangle that could not be used: off-screen, degenerate,
    /// or non-finite. A window restored to somewhere with no display is a window
    /// the user cannot get back.
    pub fn usable(self) -> (r: bool)
        ensures
            r == self.fits(),
    {
        self.x.is_finite() && self.y.is_finite() && self.w.is_finite() && self.h.is_finite()
            && !self.x.is_below(Coord { bits: LEAST_CORNER }) && !self.y.is_below(
            Coord { bits: LEAST_CORNER },
        ) && !(Coord { bits: GREATEST_CORNER }).is_below(self.x) && !(Coord {
            bits: GREATEST_CORNER,
        }).is_below(self.y) && !self.w.is_below(Coord { bits: LEAST_WIDTH }) && !self.h.is_below(
            Coord { bits: LEAST_HEIGHT },
        ) && !(Coord { bits: GREATEST_SIDE }).is_below(self.w) && !(Coord {
            bits: GREATEST_SIDE,
        }).is_below(self.h)
    }
}

/// A document.
pub struct Doc {
    pub graph: Graph,
    pub camera: Option<Pose>,
    pub dark: bool,
    /// The window's frame at the last save.
    pub window: Option<WindowRect>,
}

#[verifier::ext_equal]
pub struct DocModel {
    pub graph: GraphModel,
    pub camera: Option<Pose>,
    pub dark: bool,
    pub window: Option<WindowRect>,
}

impl View for Doc {
    type V = DocModel;

    open spec fn view(&self) -> DocModel {
        DocModel {
            graph: self.graph@,
            camera: self.camera,
            dark: self.dark,
            window: self.window,
        }
    }
}

/// A view that can be shown, or none.
pub open spec fn kept_pose(camera: Option<Pose>) -> Option<Pose> {
    match camera {
        Some(c) if c.shows() => Some(c),
        _ => None,
    }
}

/// A frame that a window can have, or none.
pub open spec fn kept_rect(window: Option<WindowRect>) -> Option<WindowRect> {
    match window {
        Some(w) if w.fits() => Some(w),
        _ => None,
    }
}

/// `after` is the document `before` as it is opened.
pub open spec fn opened(before: DocModel, after: DocModel) -> bool {
    &&& sanitize::sanitized(before.graph, after.graph)
    &&& after.camera == kept_pose(before.camera)
    &&& after.dark == before.dark
    &&& after.window == kept_rect(before.window)
}

/// A document as it is written.
pub open spec fn written(doc: DocModel) -> DocModel {
    DocModel {
        graph: doc.graph.all_placed(),
        camera: kept_pose(doc.camera),
        dark: doc.dark,
        window: kept_rect(doc.window),
    }
}

fn keep_pose(camera: Option<Pose>) -> (r: Option<Pose>)
    ensures
        r == kept_pose(camera),
{
    match camera {
        Some(c) => if c.usable() {
            Some(c)
        } else {
            None
        },
        None => None,
    }
}

fn keep_rect(window: Option<WindowRect>) -> (r: Option<WindowRect>)
    ensures
        r == kept_rect(window),
{
    match window {
        Some(w) => if w.usable() {
            Some(w)
        } else {
            None
        },
        None => None,
    }
}

impl Doc {
    pub fn new(graph: Graph, camera: Option<Pose>, dark: bool, window: Option<WindowRect>) -> (r:
        Doc)
        ensures
            r@ == (DocModel { graph: graph@, camera, dark, window }),
    {
        Doc { graph, camera, dark, window }
    }

    /// Makes a document that was read safe: never trust a file that was not
    /// written in this run.
    pub fn settle(&mut self)
        ensures
            opened(old(self)@, final(self)@),
    {
        self.graph.sanitize();
        self.camera = keep_pose(self.camera);
        self.window = keep_rect(self.window);
    }

    /// The document as it is written: what is not a number would make the file
    /// unreadable, so it is left out.
    pub fn to_write(&self) -> (r: Doc)
        ensures
            r@ == written(self@),
    {
        let mut graph = self.graph.clone();
        graph.drop_non_finite_positions();
        Doc {
            graph,
            camera: keep_pose(self.camera),
            dark: self.dark,
            window: keep_rect(self.window),
        }
    }
}

/// What is written of a sound document is opened as it was written: no node, no
/// edge, no view and no frame is lost on the way.
pub proof fn what_is_written_is_opened(doc: DocModel, back: DocModel)
    requires
        doc.graph.valid(),
        doc.graph.links_ok(),
        opened(written(doc), back),
    ensures
        back == written(doc),
{
    settled::placing_keeps_sound(doc.graph);
    settled::a_sound_map_is_left_alone(doc.graph.all_placed(), back.graph);
}

/// Writing a document twice writes the same.
pub proof fn writing_twice_is_writing_once(doc: DocModel)
    requires
        doc.graph.valid(),
        doc.graph.links_ok(),
    ensures
        written(written(doc)) == written(doc),
{
    settled::placing_keeps_sound(doc.graph);
}

/// Why a file could not be read.
pub struct Failure {
    /// There is no such file.
    pub missing: bool,
    /// What the system says of it.
    pub message: String,
}

/// What came of opening the saved map.
pub enum Load {
    /// It is opened. This session owns the file.
    Opened(Doc),
    /// Nothing is saved yet. This session owns the file.
    Fresh,
    /// The file is there but cannot be read. It must not be written over: the map
    /// may still be rescued by hand.
    Unreadable(String),
}

/// What the status line says of a file that cannot be read.
pub open spec fn unreadable(path: Seq<char>, message: Seq<char>) -> Seq<char> {
    "could not read "@ + path + ": "@ + message
}

/// What came of opening the file at `path`, given what came of reading it.
pub fn classify(path: &str, read: Result<Doc, Failure>) -> (r: Load)
    ensures
        match read {
            Ok(doc) => r matches Load::Opened(d) && opened(doc@, d@),
            Err(e) => if e.missing {
                r is Fresh
            } else {
                r matches Load::Unreadable(m) && m@ == unreadable(path@, e.message@)
            },
        },
{
    match read {
        Ok(doc) => {
            let mut doc = doc;
            doc.settle();
            Load::Opened(doc)
        },
        Err(e) => if e.missing {
            Load::Fresh
        } else {
            let mut m = "could not read ".to_owned();
            m.push_str(path);
            m.push_str(": ");
            m.push_str(e.message.as_str());
            Load::Unreadable(m)
        },
    }
}

/// What the status line says of a document that could not be saved.
pub fn save_failure(message: &str) -> (r: String)
    ensures
        r@ == "could not save: "@ + message@,
{
    let mut m = "could not save: ".to_owned();
    m.push_str(message);
    m
}

/// What the menu shows for a file is its name and that of its folder.
pub proof fn a_recent_file_is_shown_with_its_folder(
    dir: Seq<char>,
    folder: Seq<char>,
    name: Seq<char>,
)
    requires
        paths::plain_name(folder),
        paths::plain_name(name),
    ensures
        label_of(paths::joined(paths::joined(dir, folder), name)) == name + "  —  "@ + folder,
        label_of(name) == name,
{
    paths::joining_puts_a_name_into_a_folder(dir, folder, name);
    paths::joining_puts_a_name_into_a_folder(paths::joined(dir, folder), folder, name);
    paths::joining_puts_a_name_into_a_folder(seq![], folder, name);
    assert(Seq::<char>::empty() + name =~= name);
    paths::lemma_single(name);
}

/// Opening a file puts it in front of the others, which stay in order. It is not there a
/// second time, and only what goes beyond the bound is forgotten.
pub proof fn a_file_that_is_opened_comes_first(
    before: Seq<Seq<char>>,
    after: Seq<Seq<char>>,
    path: Seq<char>,
    again: Seq<char>,
)
    requires
        forall|i: int| 0 <= i < before.len() ==> !paths::same_path(#[trigger] before[i], path),
        forall|i: int| 0 <= i < after.len() ==> !paths::same_path(#[trigger] after[i], path),
        paths::same_path(again, path),
    ensures
        before.len() + after.len() < MAX_RECENTS ==> promoted(before + seq![again] + after, path)
            == seq![path] + before + after && promoted(before + after, path) == seq![path] + before
            + after,
        before.len() + after.len() >= MAX_RECENTS ==> promoted(before + seq![again] + after, path)
            == (seq![path] + before + after).take(MAX_RECENTS as int) && promoted(
            before + after,
            path,
        ) == (seq![path] + before + after).take(MAX_RECENTS as int),
{
    let keep = |p: Seq<char>| !paths::same_path(p, path);
    lemma_all_kept(before, path);
    lemma_all_kept(after, path);
    let one = seq![again];
    Seq::filter_distributes_over_add(before + one, after, keep);
    Seq::filter_distributes_over_add(before, one, keep);
    Seq::filter_distributes_over_add(before, after, keep);
    assert(one.filter(keep) =~= seq![]) by {
        reveal(Seq::filter);
        assert(one.drop_last() =~= seq![]);
        assert(one.drop_last().filter(keep).len() == 0);
    }
    assert(others(before + one + after, path) =~= before + after);
    assert(others(before + after, path) =~= before + after);
    assert(seq![path] + (before + after) =~= seq![path] + before + after);
}

proof fn lemma_all_kept(list: Seq<Seq<char>>, path: Seq<char>)
    requires
        forall|i: int| 0 <= i < list.len() ==> !paths::same_path(#[trigger] list[i], path),
    ensures
        list.filter(|p: Seq<char>| !paths::same_path(p, path)) == list,
    decreases list.len(),
{
    reveal(Seq::filter);
    if list.len() > 0 {
        let less = list.drop_last();
        assert forall|i: int| 0 <= i < less.len() implies !paths::same_path(
            #[trigger] less[i],
            path,
        ) by {
            assert(less[i] == list[i]);
        }
        lemma_all_kept(less, path);
        assert(!paths::same_path(list[list.len() - 1], path));
        assert(less.push(list.last()) =~= list);
    }
}

/// New documents are called untitled, the first without a number and every other with its
/// own.
pub proof fn new_documents_are_numbered(n: nat)
    requires
        n > 1,
    ensures
        untitled(1) == "untitled.json"@,
        untitled(n) == "untitled-"@ + text::decimal_chars(n) + ".json"@,
{
}

/// A whole number is between two others exactly when its coordinate is between theirs.
proof fn lemma_between(i: int, low: int, high: int)
    requires
        -0x80_0000 < i < 0x80_0000,
        low == -20000 || low == 320 || low == 240,
        high == 20000,
    ensures
        coord::spec_whole(i).finite(),
        low <= i <==> coord::spec_whole(low).rank() <= coord::spec_whole(i).rank(),
        i <= high <==> coord::spec_whole(i).rank() <= coord::spec_whole(high).rank(),
{
    assert(coord::spec_whole(low - 1).rank() < coord::spec_whole(low).rank()
        && coord::spec_whole(high).rank() < coord::spec_whole(high + 1).rank()) by {
        reveal_with_fuel(coord::scaled_up, 24);
    }
    if low <= i {
        coord::lemma_whole_rises(low, i);
    } else {
        coord::lemma_whole_rises(i, low - 1);
    }
    if i <= high {
        coord::lemma_whole_rises(i, high);
    } else {
        coord::lemma_whole_rises(high + 1, i);
    }
    coord::lemma_whole_rises(-0x80_0000, i);
    coord::lemma_whole_rises(i, 0x80_0000);
    assert(coord::spec_whole(0x80_0000).bits == 0x4b00_0000 && coord::spec_whole(-0x80_0000).bits
        == 0xcb00_0000u32);
}

/// A frame of whole numbers is remembered exactly when it is no smaller than the least
/// window, no larger than any display, and not further off than one.
pub proof fn a_window_is_where_a_display_could_be(x: int, y: int, w: int, h: int)
    requires
        -0x80_0000 < x < 0x80_0000,
        -0x80_0000 < y < 0x80_0000,
        0 <= w < 0x80_0000,
        0 <= h < 0x80_0000,
    ensures
        (WindowRect {
            x: coord::spec_whole(x),
            y: coord::spec_whole(y),
            w: coord::spec_whole(w),
            h: coord::spec_whole(h),
        }).fits() <==> -20000 <= x <= 20000 && -20000 <= y <= 20000 && 320 <= w <= 20000 && 240 <= h
            <= 20000,
{
    lemma_between(x, -20000, 20000);
    lemma_between(y, -20000, 20000);
    lemma_between(w, 320, 20000);
    lemma_between(h, 240, 20000);
    assert(coord::spec_whole(320).bits == LEAST_WIDTH && coord::spec_whole(240).bits == LEAST_HEIGHT
        && coord::spec_whole(20000).bits == GREATEST_SIDE && coord::spec_whole(-20000).bits
        == LEAST_CORNER) by {
        reveal_with_fuel(coord::scaled_up, 24);
    }
}

} // verus!
