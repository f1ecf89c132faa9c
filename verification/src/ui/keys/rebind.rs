//! The verbs that can be given another chord, and the chords they were given.

use vstd::prelude::*;
use crate::text;
use crate::ui::keys::{Action, Where};

verus! {

/// How many verbs can be given another chord.
pub const VERBS: usize = 16;

/// A verb that can be given another chord.
pub struct Verb {
    pub name: &'static str,
    /// What the shortcut panel calls it.
    pub label: &'static str,
    /// Its chord, unless it was given another.
    pub chord: &'static str,
    pub action: Action,
    pub when: Where,
}

/// The name of verb `k`.
pub open spec fn name_of(k: int) -> Seq<char> {
    if k == 0 {
        "NewDocument"@
    } else if k == 1 {
        "OpenDocument"@
    } else if k == 2 {
        "SaveNow"@
    } else if k == 3 {
        "SaveAs"@
    } else if k == 4 {
        "TidyLayout"@
    } else if k == 5 {
        "ToggleFold"@
    } else if k == 6 {
        "OpenFind"@
    } else if k == 7 {
        "ToggleEdgeLabel"@
    } else if k == 8 {
        "DuplicateNodes"@
    } else if k == 9 {
        "ZoomIn"@
    } else if k == 10 {
        "ZoomOut"@
    } else if k == 11 {
        "ZoomFit"@
    } else if k == 12 {
        "ZoomReset"@
    } else if k == 13 {
        "ToggleTheme"@
    } else if k == 14 {
        "ToggleMinimap"@
    } else {
        "ToggleHelp"@
    }
}

/// What the shortcut panel calls verb `k`.
pub open spec fn label_of(k: int) -> Seq<char> {
    if k == 0 {
        "New map"@
    } else if k == 1 {
        "Open map"@
    } else if k == 2 {
        "Save now"@
    } else if k == 3 {
        "Save as"@
    } else if k == 4 {
        "Tidy layout"@
    } else if k == 5 {
        "Fold / unfold"@
    } else if k == 6 {
        "Find"@
    } else if k == 7 {
        "Edge label"@
    } else if k == 8 {
        "Duplicate"@
    } else if k == 9 {
        "Zoom in"@
    } else if k == 10 {
        "Zoom out"@
    } else if k == 11 {
        "Fit map"@
    } else if k == 12 {
        "Actual size"@
    } else if k == 13 {
        "Paper / night"@
    } else if k == 14 {
        "Minimap"@
    } else {
        "Shortcuts panel"@
    }
}

/// The chord of verb `k`, unless it was given another.
pub open spec fn default_of(k: int) -> Seq<char> {
    if k == 0 {
        "cmd-n"@
    } else if k == 1 {
        "cmd-o"@
    } else if k == 2 {
        "cmd-s"@
    } else if k == 3 {
        "cmd-shift-s"@
    } else if k == 4 {
        "cmd-r"@
    } else if k == 5 {
        "cmd-."@
    } else if k == 6 {
        "cmd-f"@
    } else if k == 7 {
        "cmd-l"@
    } else if k == 8 {
        "cmd-d"@
    } else if k == 9 {
        "cmd-="@
    } else if k == 10 {
        "cmd--"@
    } else if k == 11 {
        "cmd-0"@
    } else if k == 12 {
        "cmd-1"@
    } else if k == 13 {
        "cmd-t"@
    } else if k == 14 {
        "cmd-shift-m"@
    } else {
        "cmd-/"@
    }
}

/// What verb `k` does.
pub open spec fn action_of(k: int) -> Action {
    if k == 0 {
        Action::NewDocument
    } else if k == 1 {
        Action::OpenDocument
    } else if k == 2 {
        Action::SaveNow
    } else if k == 3 {
        Action::SaveAs
    } else if k == 4 {
        Action::TidyLayout
    } else if k == 5 {
        Action::ToggleFold
    } else if k == 6 {
        Action::OpenFind
    } else if k == 7 {
        Action::ToggleEdgeLabel
    } else if k == 8 {
        Action::DuplicateNodes
    } else if k == 9 {
        Action::ZoomIn
    } else if k == 10 {
        Action::ZoomOut
    } else if k == 11 {
        Action::ZoomFit
    } else if k == 12 {
        Action::ZoomReset
    } else if k == 13 {
        Action::ToggleTheme
    } else if k == 14 {
        Action::ToggleMinimap
    } else {
        Action::ToggleHelp
    }
}

/// Where verb `k` can be called on.
pub open spec fn where_of(k: int) -> Where {
    if k == 0 {
        Where::Session
    } else if k == 1 {
        Where::Session
    } else if k == 2 {
        Where::Session
    } else if k == 3 {
        Where::Session
    } else if k == 4 {
        Where::Driving
    } else if k == 5 {
        Where::Browse
    } else if k == 6 {
        Where::Anywhere
    } else if k == 7 {
        Where::Driving
    } else if k == 8 {
        Where::Browse
    } else if k == 9 {
        Where::Session
    } else if k == 10 {
        Where::Session
    } else if k == 11 {
        Where::Session
    } else if k == 12 {
        Where::Session
    } else if k == 13 {
        Where::Session
    } else if k == 14 {
        Where::Session
    } else {
        Where::Anywhere
    }
}

fn verb(
    name: &'static str,
    label: &'static str,
    chord: &'static str,
    action: Action,
    when: Where,
) -> (r: Verb)
    ensures
        r == (Verb { name, label, chord, action, when }),
{
    Verb { name, label, chord, action, when }
}

/// The verbs that can be given another chord.
pub fn rebindable() -> (r: Vec<Verb>)
    ensures
        r@.len() == VERBS,
        forall|k: int| 0 <= k < VERBS ==> (#[trigger] r@[k]).name@ == name_of(k),
        forall|k: int| 0 <= k < VERBS ==> (#[trigger] r@[k]).label@ == label_of(k),
        forall|k: int| 0 <= k < VERBS ==> (#[trigger] r@[k]).chord@ == default_of(k),
        forall|k: int| 0 <= k < VERBS ==> (#[trigger] r@[k]).action == action_of(k),
        forall|k: int| 0 <= k < VERBS ==> (#[trigger] r@[k]).when == where_of(k),
{
    vec![
        verb("NewDocument", "New map", "cmd-n", Action::NewDocument, Where::Session),
        verb("OpenDocument", "Open map", "cmd-o", Action::OpenDocument, Where::Session),
        verb("SaveNow", "Save now", "cmd-s", Action::SaveNow, Where::Session),
        verb("SaveAs", "Save as", "cmd-shift-s", Action::SaveAs, Where::Session),
        verb("TidyLayout", "Tidy layout", "cmd-r", Action::TidyLayout, Where::Driving),
        verb("ToggleFold", "Fold / unfold", "cmd-.", Action::ToggleFold, Where::Browse),
        verb("OpenFind", "Find", "cmd-f", Action::OpenFind, Where::Anywhere),
        verb("ToggleEdgeLabel", "Edge label", "cmd-l", Action::ToggleEdgeLabel, Where::Driving),
        verb("DuplicateNodes", "Duplicate", "cmd-d", Action::DuplicateNodes, Where::Browse),
        verb("ZoomIn", "Zoom in", "cmd-=", Action::ZoomIn, Where::Session),
        verb("ZoomOut", "Zoom out", "cmd--", Action::ZoomOut, Where::Session),
        verb("ZoomFit", "Fit map", "cmd-0", Action::ZoomFit, Where::Session),
        verb("ZoomReset", "Actual size", "cmd-1", Action::ZoomReset, Where::Session),
        verb("ToggleTheme", "Paper / night", "cmd-t", Action::ToggleTheme, Where::Session),
        verb("ToggleMinimap", "Minimap", "cmd-shift-m", Action::ToggleMinimap, Where::Session),
        verb("ToggleHelp", "Shortcuts panel", "cmd-/", Action::ToggleHelp, Where::Anywhere),
    ]
}

// ---------------------------------------------------------------------------
// The chords that were given
// ---------------------------------------------------------------------------

/// What the user made of the keyboard: names of verbs, and the chord that each
/// was given. An empty chord leaves the verb without one.
pub struct Keymap {
    pub given: Vec<(String, String)>,
}

/// A name and a chord, by their characters.
pub open spec fn pairs(v: Seq<(String, String)>) -> Seq<(Seq<char>, Seq<char>)> {
    v.map_values(|p: (String, String)| (p.0@, p.1@))
}

/// The chord that a list gives a name, if it does: the last word on it counts.
pub open spec fn given_to(v: Seq<(Seq<char>, Seq<char>)>, name: Seq<char>) -> Option<Seq<char>>
    decreases v.len(),
{
    if v.len() == 0 {
        None
    } else if v.last().0 == name {
        Some(v.last().1)
    } else {
        given_to(v.drop_last(), name)
    }
}

impl View for Keymap {
    type V = Seq<(Seq<char>, Seq<char>)>;

    open spec fn view(&self) -> Seq<(Seq<char>, Seq<char>)> {
        pairs(self.given@)
    }
}

/// The default chord of the verb of a name, from the first verb on; empty for a
/// name that no verb has.
pub open spec fn default_chord(name: Seq<char>, from: int) -> Seq<char>
    decreases VERBS - from,
{
    if from < 0 || from >= VERBS {
        seq![]
    } else if name_of(from) == name {
        default_of(from)
    } else {
        default_chord(name, from + 1)
    }
}

/// The chord that the verb of a name answers to.
pub open spec fn chord_of(v: Seq<(Seq<char>, Seq<char>)>, name: Seq<char>) -> Seq<char> {
    match given_to(v, name) {
        Some(c) => c,
        None => default_chord(name, 0),
    }
}

fn same(a: &str, b: &str) -> (r: bool)
    ensures
        r == (a@ == b@),
{
    let chars = text::chars(a);
    text::spells(&chars, b)
}

impl Keymap {
    pub fn new() -> (r: Keymap)
        ensures
            r@ == Seq::<(Seq<char>, Seq<char>)>::empty(),
    {
        let r = Keymap { given: Vec::new() };
        assert(r@ =~= Seq::empty());
        r
    }

    /// The chord that was given to a name, if one was.
    pub fn get(&self, name: &str) -> (r: Option<String>)
        ensures
            match r {
                Some(c) => given_to(self@, name@) == Some(c@),
                None => given_to(self@, name@) is None,
            },
    {
        let mut i: usize = self.given.len();
        assert(self@.take(i as int) =~= self@);
        while i > 0
            invariant
                i <= self.given@.len(),
                given_to(self@.take(i as int), name@) == given_to(self@, name@),
            decreases i,
        {
            let ghost part = self@.take(i as int);
            assert(part.drop_last() =~= self@.take(i - 1));
            assert(part.last() == self@[i - 1]);
            if same(self.given[i - 1].0.as_str(), name) {
                return Some(self.given[i - 1].1.clone());
            }
            i = i - 1;
        }
        None
    }

    /// Gives a name a chord.
    pub fn insert(&mut self, name: &str, chord: &str)
        ensures
            final(self)@ == old(self)@.push((name@, chord@)),
            given_to(final(self)@, name@) == Some(chord@),
            forall|n: Seq<char>|
                n != name@ ==> #[trigger] given_to(final(self)@, n) == given_to(old(self)@, n),
    {
        let ghost was = self@;
        self.given.push((name.to_owned(), chord.to_owned()));
        assert(self@ =~= was.push((name@, chord@)));
        assert(self@.drop_last() =~= was);
    }

    /// Takes back what a name was given. Says whether it was given anything.
    pub fn remove(&mut self, name: &str) -> (r: bool)
        ensures
            r == (given_to(old(self)@, name@) is Some),
            given_to(final(self)@, name@) is None,
            forall|n: Seq<char>|
                n != name@ ==> #[trigger] given_to(final(self)@, n) == given_to(old(self)@, n),
    {
        let ghost was = self@;
        let n: usize = self.given.len();
        let mut kept: Vec<(String, String)> = Vec::new();
        let mut found = false;
        let mut i: usize = 0;
        assert(was.take(0) =~= seq![]);
        assert(pairs(kept@) =~= seq![]);
        while i < n
            invariant
                i <= n,
                n == self.given@.len(),
                was == pairs(self.given@),
                found == (given_to(was.take(i as int), name@) is Some),
                given_to(pairs(kept@), name@) is None,
                forall|m: Seq<char>|
                    m != name@ ==> #[trigger] given_to(pairs(kept@), m) == given_to(
                        was.take(i as int),
                        m,
                    ),
            decreases n - i,
        {
            assert(was.take(i + 1).drop_last() =~= was.take(i as int));
            assert(was.take(i + 1).last() == was[i as int]);
            let ghost before = pairs(kept@);
            if same(self.given[i].0.as_str(), name) {
                found = true;
            } else {
                kept.push((self.given[i].0.clone(), self.given[i].1.clone()));
                assert(pairs(kept@) =~= before.push(was[i as int]));
                assert(pairs(kept@).drop_last() =~= before);
            }
            assert forall|m: Seq<char>| m != name@ implies #[trigger] given_to(pairs(kept@), m)
                == given_to(was.take(i + 1), m) by {
                assert(given_to(before, m) == given_to(was.take(i as int), m));
            }
            i = i + 1;
        }
        assert(was.take(n as int) =~= was);
        self.given = kept;
        found
    }
}

/// The chord that the verb of a name answers to: the one it was given, or else its
/// own.
pub fn chord_for(name: &str, keymap: &Keymap) -> (r: String)
    ensures
        r@ == chord_of(keymap@, name@),
{
    if let Some(c) = keymap.get(name) {
        return c;
    }
    let verbs = rebindable();
    let mut i: usize = 0;
    while i < VERBS
        invariant
            i <= VERBS,
            verbs@.len() == VERBS,
            given_to(keymap@, name@) is None,
            forall|k: int| 0 <= k < VERBS ==> (#[trigger] verbs@[k]).name@ == name_of(k),
            forall|k: int| 0 <= k < VERBS ==> (#[trigger] verbs@[k]).chord@ == default_of(k),
            default_chord(name@, i as int) == default_chord(name@, 0),
        decreases VERBS - i,
    {
        assert(verbs@[i as int].name@ == name_of(i as int));
        if same(verbs[i].name, name) {
            return verbs[i].chord.to_owned();
        }
        i = i + 1;
    }
    String::new()
}

/// The names of the verbs are all different.
pub proof fn lemma_names(a: int, b: int)
    requires
        0 <= a < VERBS,
        0 <= b < VERBS,
        name_of(a) == name_of(b),
    ensures
        a == b,
{
    reveal_strlit("NewDocument");
    reveal_strlit("OpenDocument");
    reveal_strlit("SaveNow");
    reveal_strlit("SaveAs");
    reveal_strlit("TidyLayout");
    reveal_strlit("ToggleFold");
    reveal_strlit("OpenFind");
    reveal_strlit("ToggleEdgeLabel");
    reveal_strlit("DuplicateNodes");
    reveal_strlit("ZoomIn");
    reveal_strlit("ZoomOut");
    reveal_strlit("ZoomFit");
    reveal_strlit("ZoomReset");
    reveal_strlit("ToggleTheme");
    reveal_strlit("ToggleMinimap");
    reveal_strlit("ToggleHelp");
    assert("NewDocument"@.len() == 11);
    assert("OpenDocument"@.len() == 12);
    assert("SaveNow"@.len() == 7);
    assert("SaveAs"@.len() == 6);
    assert("TidyLayout"@.len() == 10);
    assert("ToggleFold"@.len() == 10);
    assert("OpenFind"@.len() == 8);
    assert("ToggleEdgeLabel"@.len() == 15);
    assert("DuplicateNodes"@.len() == 14);
    assert("ZoomIn"@.len() == 6);
    assert("ZoomOut"@.len() == 7);
    assert("ZoomFit"@.len() == 7);
    assert("ZoomReset"@.len() == 9);
    assert("ToggleTheme"@.len() == 11);
    assert("ToggleMinimap"@.len() == 13);
    assert("ToggleHelp"@.len() == 10);
    assert("NewDocument"@[0] == 'N');
    assert("ToggleTheme"@[0] == 'T');
    assert("SaveNow"@[0] == 'S');
    assert("ZoomOut"@[0] == 'Z');
    assert("ZoomFit"@[0] == 'Z');
    assert("ZoomOut"@[4] == 'O');
    assert("ZoomFit"@[4] == 'F');
    assert("SaveAs"@[0] == 'S');
    assert("ZoomIn"@[0] == 'Z');
    assert("TidyLayout"@[1] == 'i');
    assert("ToggleFold"@[1] == 'o');
    assert("ToggleHelp"@[1] == 'o');
    assert("ToggleFold"@[6] == 'F');
    assert("ToggleHelp"@[6] == 'H');
}

/// A verb, its chord and where it can be called on.
pub struct Called {
    pub chord: String,
    pub action: Action,
    pub when: Where,
}

/// The bindings of the first `n` verbs. A verb without a chord has none.
pub open spec fn called(v: Seq<(Seq<char>, Seq<char>)>, n: nat) -> Seq<(Seq<char>, Action, Where)>
    decreases n,
{
    if n == 0 {
        seq![]
    } else {
        let k = n - 1;
        let rest = called(v, k as nat);
        let chord = chord_of(v, name_of(k));
        if chord.len() > 0 {
            rest.push((chord, action_of(k), where_of(k)))
        } else {
            rest
        }
    }
}

/// The bindings of the verbs, with the chords they answer to. A verb without a
/// chord has none.
pub fn bind_rebindable(keymap: &Keymap) -> (r: Vec<Called>)
    ensures
        r@.map_values(|c: Called| (c.chord@, c.action, c.when)) == called(keymap@, VERBS as nat),
{
    let verbs = rebindable();
    let mut out: Vec<Called> = Vec::new();
    let mut i: usize = 0;
    assert(out@.map_values(|c: Called| (c.chord@, c.action, c.when)) =~= seq![]);
    while i < VERBS
        invariant
            i <= VERBS,
            verbs@.len() == VERBS,
            forall|k: int| 0 <= k < VERBS ==> (#[trigger] verbs@[k]).name@ == name_of(k),
            forall|k: int| 0 <= k < VERBS ==> (#[trigger] verbs@[k]).action == action_of(k),
            forall|k: int| 0 <= k < VERBS ==> (#[trigger] verbs@[k]).when == where_of(k),
            out@.map_values(|c: Called| (c.chord@, c.action, c.when)) == called(keymap@, i as nat),
        decreases VERBS - i,
    {
        let v = &verbs[i];
        assert(verbs@[i as int].name@ == name_of(i as int));
        let chord = chord_for(v.name, keymap);
        let ghost was = out@.map_values(|c: Called| (c.chord@, c.action, c.when));
        if text::chars(chord.as_str()).len() > 0 {
            out.push(Called { chord, action: v.action, when: v.when });
            assert(out@.map_values(|c: Called| (c.chord@, c.action, c.when)) =~= called(
                keymap@,
                (i + 1) as nat,
            ));
        }
        i = i + 1;
    }
    out
}

// ---------------------------------------------------------------------------
// Giving a verb a chord
// ---------------------------------------------------------------------------

/// A key that was pressed. A modifier alone has an empty key.
pub struct Press {
    pub key: String,
    pub cmd: bool,
    pub ctrl: bool,
    pub alt: bool,
    pub shift: bool,
}

/// What a press comes to while a verb waits for its chord.
#[derive(Clone, Copy, Debug, PartialEq, Eq, Structural)]
pub enum Captured {
    /// The old chord is kept.
    Cancelled,
    /// A modifier alone: the rest is still to come.
    Waiting,
    /// A bare key cannot be a chord. It goes on waiting.
    Refused,
    /// The verb has its new chord.
    Bound,
}

fn mark(on: bool, out: &mut String, word: &str)
    ensures
        final(out)@ == old(out)@ + (if on {
            word@
        } else {
            seq![]
        }),
{
    let ghost was = out@;
    if on {
        out.push_str(word);
    }
    assert(out@ =~= was + (if on {
        word@
    } else {
        seq![]
    }));
}

pub open spec fn marked(on: bool, word: Seq<char>) -> Seq<char> {
    if on {
        word
    } else {
        seq![]
    }
}

/// A press as the keymap writes it.
pub open spec fn spelled(p: Press) -> Seq<char> {
    marked(p.cmd, "cmd-"@) + marked(p.ctrl, "ctrl-"@) + marked(p.alt, "alt-"@) + marked(
        p.shift,
        "shift-"@,
    ) + p.key@
}

/// A press as the keymap writes it.
pub fn spell(p: &Press) -> (r: String)
    ensures
        r@ == spelled(*p),
{
    let mut out = String::new();
    mark(p.cmd, &mut out, "cmd-");
    mark(p.ctrl, &mut out, "ctrl-");
    mark(p.alt, &mut out, "alt-");
    mark(p.shift, &mut out, "shift-");
    out.push_str(p.key.as_str());
    assert(out@ =~= spelled(*p));
    out
}

/// What a press comes to.
pub open spec fn outcome(p: Press) -> Captured {
    if p.key@ == "escape"@ {
        Captured::Cancelled
    } else if p.key@.len() == 0 {
        Captured::Waiting
    } else if !(p.cmd || p.ctrl || p.alt) {
        Captured::Refused
    } else {
        Captured::Bound
    }
}

/// The keymap `v` with `chord` given to verb `k`, and taken from the first `n`
/// verbs that answered to it.
pub open spec fn yielded(
    v: Seq<(Seq<char>, Seq<char>)>,
    k: int,
    chord: Seq<char>,
    n: nat,
) -> Seq<(Seq<char>, Seq<char>)>
    decreases n,
{
    if n == 0 {
        v.push((name_of(k), chord))
    } else {
        let j = n - 1;
        let before = yielded(v, k, chord, j as nat);
        if j != k && chord_of(v, name_of(j)) == chord {
            before.push((name_of(j), seq![]))
        } else {
            before
        }
    }
}

proof fn lemma_yielded(v: Seq<(Seq<char>, Seq<char>)>, k: int, chord: Seq<char>, n: nat)
    requires
        0 <= k < VERBS,
        n <= VERBS,
    ensures
        given_to(yielded(v, k, chord, n), name_of(k)) == Some(chord),
        forall|j: int|
            0 <= j < VERBS && j != k ==> given_to(
                yielded(v, k, chord, n),
                #[trigger] name_of(j),
            ) == (if j < n && chord_of(v, name_of(j)) == chord {
                Some(seq![])
            } else {
                given_to(v, name_of(j))
            }),
    decreases n,
{
    let y = yielded(v, k, chord, n);
    if n == 0 {
        assert(y.drop_last() =~= v);
        assert forall|j: int| 0 <= j < VERBS && j != k implies given_to(
            y,
            #[trigger] name_of(j),
        ) == given_to(v, name_of(j)) by {
            if name_of(j) == name_of(k) {
                lemma_names(j, k);
            }
        }
    } else {
        let m = n - 1;
        let before = yielded(v, k, chord, m as nat);
        lemma_yielded(v, k, chord, m as nat);
        if m != k && chord_of(v, name_of(m)) == chord {
            assert(y.drop_last() =~= before);
            assert forall|j: int| 0 <= j < VERBS && j != m implies given_to(
                y,
                #[trigger] name_of(j),
            ) == given_to(before, name_of(j)) by {
                if name_of(j) == name_of(m) {
                    lemma_names(j, m);
                }
            }
            assert(given_to(y, name_of(m)) == Some(Seq::<char>::empty()));
        }
    }
}

/// A press while verb `k` waits for its chord. A chord that another verb answers
/// to is taken from it, so that no chord calls on two verbs.
pub fn capture(keymap: &mut Keymap, k: usize, press: &Press) -> (r: Captured)
    requires
        k < VERBS,
    ensures
        r == outcome(*press),
        final(keymap)@ == (if r == Captured::Bound {
            yielded(old(keymap)@, k as int, spelled(*press), VERBS as nat)
        } else {
            old(keymap)@
        }),
{
    let key = text::chars(press.key.as_str());
    if text::spells(&key, "escape") {
        return Captured::Cancelled;
    }
    if key.len() == 0 {
        return Captured::Waiting;
    }
    if !(press.cmd || press.ctrl || press.alt) {
        return Captured::Refused;
    }
    let chord = spell(press);
    let verbs = rebindable();
    let ghost before = keymap@;
    assert(verbs@[k as int].name@ == name_of(k as int));
    let mut i: usize = 0;
    // Which verbs answer to the chord is asked of the keymap as it was.
    let mut taken: Vec<bool> = Vec::new();
    while i < VERBS
        invariant
            i <= VERBS,
            before == keymap@,
            verbs@.len() == VERBS,
            taken@.len() == i,
            forall|j: int| 0 <= j < VERBS ==> (#[trigger] verbs@[j]).name@ == name_of(j),
            forall|j: int|
                0 <= j < i ==> #[trigger] taken@[j] == (chord_of(before, name_of(j)) == chord@),
        decreases VERBS - i,
    {
        assert(verbs@[i as int].name@ == name_of(i as int));
        let c = chord_for(verbs[i].name, keymap);
        taken.push(same(c.as_str(), chord.as_str()));
        i = i + 1;
    }
    keymap.insert(verbs[k].name, chord.as_str());
    let mut j: usize = 0;
    while j < VERBS
        invariant
            j <= VERBS,
            k < VERBS,
            verbs@.len() == VERBS,
            taken@.len() == VERBS,
            forall|m: int| 0 <= m < VERBS ==> (#[trigger] verbs@[m]).name@ == name_of(m),
            forall|m: int|
                0 <= m < VERBS ==> #[trigger] taken@[m] == (chord_of(before, name_of(m)) == chord@),
            keymap@ == yielded(before, k as int, chord@, j as nat),
        decreases VERBS - j,
    {
        if j != k && taken[j] {
            assert(verbs@[j as int].name@ == name_of(j as int));
            keymap.insert(verbs[j].name, "");
            proof {
                reveal_strlit("");
                assert(""@ =~= seq![]);
            }
        }
        j = j + 1;
    }
    Captured::Bound
}

/// Once a verb has a new chord it answers to it, no other verb does, and every
/// verb that did not answer to it keeps its own.
pub proof fn a_chord_calls_on_one_verb(
    v: Seq<(Seq<char>, Seq<char>)>,
    k: int,
    chord: Seq<char>,
    j: int,
)
    requires
        0 <= k < VERBS,
        0 <= j < VERBS,
        chord.len() > 0,
    ensures
        chord_of(yielded(v, k, chord, VERBS as nat), name_of(k)) == chord,
        j != k ==> chord_of(yielded(v, k, chord, VERBS as nat), name_of(j)) != chord,
        j != k && chord_of(v, name_of(j)) != chord ==> chord_of(
            yielded(v, k, chord, VERBS as nat),
            name_of(j),
        ) == chord_of(v, name_of(j)),
{
    lemma_yielded(v, k, chord, VERBS as nat);
}

/// What the shortcut panel shows as the chord of verb `k`.
pub open spec fn shown(v: Seq<(Seq<char>, Seq<char>)>, k: int, waiting: bool) -> Seq<char> {
    let chord = chord_of(v, name_of(k));
    if waiting {
        "press a chord…"@
    } else if chord.len() == 0 {
        "unbound"@
    } else {
        chord
    }
}

/// What the shortcut panel shows as the chord of verb `k`, which may be waiting
/// for another.
pub fn show(keymap: &Keymap, k: usize, waiting: bool) -> (r: String)
    requires
        k < VERBS,
    ensures
        r@ == shown(keymap@, k as int, waiting),
{
    if waiting {
        return "press a chord…".to_owned();
    }
    let verbs = rebindable();
    assert(verbs@[k as int].name@ == name_of(k as int));
    let chord = chord_for(verbs[k].name, keymap);
    if text::chars(chord.as_str()).len() == 0 {
        "unbound".to_owned()
    } else {
        chord
    }
}

} // verus!
