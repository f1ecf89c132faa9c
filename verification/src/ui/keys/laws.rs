//! What the keys mean, said of whole families of them.

use vstd::prelude::*;
use crate::text;
use crate::ui::keys;
use crate::ui::keys::rebind;
use crate::ui::keys::rebind::{Captured, Press};
use crate::ui::keys::{Action, Chord, Key, KeyMode, Where};

verus! {

/// Only these modifiers are held.
pub open spec fn only(c: Chord, cmd: bool, alt: bool, shift: bool) -> bool {
    c.cmd == cmd && c.alt == alt && c.shift == shift && !c.ctrl
}

/// An arrow goes its own way in everything that it does: while browsing it nudges, with
/// shift it nudges far, and with alt it navigates; while typing it moves the caret and
/// with shift it selects; with the command key it makes a node there.
pub proof fn an_arrow_goes_its_own_way(c: Chord)
    ensures
        c.key == Key::Left ==> {
            &&& only(c, false, false, false) ==> keys::browse_meaning(c) == Some(Action::NudgeLeft)
                && keys::edit_meaning(c) == Some(Action::CaretLeft)
            &&& only(c, false, false, true) ==> keys::browse_meaning(c) == Some(
                Action::NudgeLeftBig,
            ) && keys::edit_meaning(c) == Some(Action::SelectLeft)
            &&& only(c, false, true, false) ==> keys::browse_meaning(c) == Some(Action::NavLeft)
                && keys::edit_meaning(c) == Some(Action::CaretWordLeft)
            &&& only(c, false, true, true) ==> keys::browse_meaning(c) == Some(Action::Outdent)
                && keys::edit_meaning(c) == Some(Action::SelectWordLeft)
            &&& only(c, true, false, false) ==> keys::driving_meaning(c) == Some(Action::CreateLeft)
        },
        c.key == Key::Right ==> {
            &&& only(c, false, false, false) ==> keys::browse_meaning(c) == Some(Action::NudgeRight)
                && keys::edit_meaning(c) == Some(Action::CaretRight)
            &&& only(c, false, false, true) ==> keys::browse_meaning(c) == Some(
                Action::NudgeRightBig,
            ) && keys::edit_meaning(c) == Some(Action::SelectRight)
            &&& only(c, false, true, false) ==> keys::browse_meaning(c) == Some(Action::NavRight)
                && keys::edit_meaning(c) == Some(Action::CaretWordRight)
            &&& only(c, false, true, true) ==> keys::browse_meaning(c) == Some(Action::Indent)
                && keys::edit_meaning(c) == Some(Action::SelectWordRight)
            &&& only(c, true, false, false) ==> keys::driving_meaning(c) == Some(
                Action::CreateRight,
            )
        },
        c.key == Key::Up ==> {
            &&& only(c, false, false, false) ==> keys::browse_meaning(c) == Some(Action::NudgeUp)
                && keys::edit_meaning(c) == Some(Action::CaretUp)
            &&& only(c, false, false, true) ==> keys::browse_meaning(c) == Some(Action::NudgeUpBig)
                && keys::edit_meaning(c) == Some(Action::SelectUp)
            &&& only(c, false, true, false) ==> keys::browse_meaning(c) == Some(Action::NavUp)
            &&& only(c, false, true, true) ==> keys::browse_meaning(c) == Some(Action::MoveSiblingUp)
            &&& only(c, true, false, false) ==> keys::driving_meaning(c) == Some(Action::CreateUp)
        },
        c.key == Key::Down ==> {
            &&& only(c, false, false, false) ==> keys::browse_meaning(c) == Some(Action::NudgeDown)
                && keys::edit_meaning(c) == Some(Action::CaretDown)
            &&& only(c, false, false, true) ==> keys::browse_meaning(c) == Some(
                Action::NudgeDownBig,
            ) && keys::edit_meaning(c) == Some(Action::SelectDown)
            &&& only(c, false, true, false) ==> keys::browse_meaning(c) == Some(Action::NavDown)
            &&& only(c, false, true, true) ==> keys::browse_meaning(c) == Some(
                Action::MoveSiblingDown,
            )
            &&& only(c, true, false, false) ==> keys::driving_meaning(c) == Some(Action::CreateDown)
        },
{
}

/// The keys of the clipboard and of selecting all act on nodes while browsing and on text
/// while typing. Undo and redo are the same key, with and without shift.
pub proof fn the_clipboard_keys_follow_the_mode(c: Chord)
    requires
        only(c, true, false, false),
    ensures
        c.key == Key::Char('x') ==> keys::browse_meaning(c) == Some(Action::CutNodes)
            && keys::edit_meaning(c) == Some(Action::CutText),
        c.key == Key::Char('c') ==> keys::browse_meaning(c) == Some(Action::CopyNodes)
            && keys::edit_meaning(c) == Some(Action::CopyText),
        c.key == Key::Char('v') ==> keys::browse_meaning(c) == Some(Action::PasteNodes)
            && keys::edit_meaning(c) == Some(Action::PasteText),
        c.key == Key::Char('a') ==> keys::browse_meaning(c) == Some(Action::SelectAllNodes)
            && keys::edit_meaning(c) == Some(Action::SelectAll),
        c.key == Key::Char('z') ==> keys::session_meaning(c) == Some(Action::Undo)
            && keys::session_meaning(Chord { shift: true, ..c }) == Some(Action::Redo),
        c.key == Key::Char('g') ==> keys::anywhere_meaning(c) == Some(Action::FindNext)
            && keys::anywhere_meaning(Chord { shift: true, ..c }) == Some(Action::FindPrev),
{
}

/// The keys that type and delete: backspace takes back while typing and deletes nodes
/// while browsing, return commits, and with shift breaks the line.
pub proof fn the_typing_keys_follow_the_mode(c: Chord)
    ensures
        c.key == Key::Backspace ==> {
            &&& only(c, false, false, false) ==> keys::edit_meaning(c) == Some(Action::Backspace)
                && keys::browse_meaning(c) == Some(Action::DeleteNode) && keys::find_meaning(c)
                == Some(Action::FindBackspace) && keys::help_meaning(c) == Some(
                Action::HelpBackspace,
            )
            &&& only(c, false, true, false) ==> keys::edit_meaning(c) == Some(Action::DeleteWordLeft)
            &&& only(c, true, false, false) ==> keys::edit_meaning(c) == Some(Action::ClearFocusText)
        },
        c.key == Key::Delete && only(c, false, false, false) ==> keys::edit_meaning(c) == Some(
            Action::DeleteForward,
        ) && keys::browse_meaning(c) == Some(Action::DeleteNode),
        c.key == Key::Enter ==> {
            &&& only(c, false, false, false) ==> keys::driving_meaning(c) == Some(Action::Commit)
                && keys::find_meaning(c) == Some(Action::FindNext)
            &&& only(c, false, false, true) ==> keys::edit_meaning(c) == Some(Action::InsertNewline)
                && keys::find_meaning(c) == Some(Action::FindPrev)
            &&& only(c, true, false, false) ==> keys::driving_meaning(c) == Some(Action::CreateChild)
                && keys::find_meaning(c) == Some(Action::FindReplaceAll)
            &&& only(c, true, false, true) ==> keys::driving_meaning(c) == Some(
                Action::CreateSibling,
            )
        },
        c.key == Key::Tab ==> {
            &&& only(c, false, false, false) ==> keys::browse_meaning(c) == Some(Action::CreateChild)
                && keys::find_meaning(c) == Some(Action::FindToggleReplace)
            &&& only(c, false, false, true) ==> keys::browse_meaning(c) == Some(
                Action::CreateSibling,
            )
        },
        c.key == Key::Escape && only(c, false, false, false) ==> keys::anywhere_meaning(c) == Some(
            Action::Escape,
        ),
{
}

/// The panel has the keyboard before the find field, and that before the map. A binding
/// holds in the modes that it is for and in no other.
pub proof fn the_panel_outranks_the_field(find: bool, editing: bool, mode: KeyMode)
    ensures
        keys::mode_of(true, find, editing) == KeyMode::Help,
        keys::mode_of(false, true, editing) == KeyMode::Find,
        keys::mode_of(false, false, true) == KeyMode::Edit,
        keys::mode_of(false, false, false) == KeyMode::Browse,
        keys::live(Where::Anywhere, mode),
        keys::live(Where::Session, mode) <==> mode != KeyMode::Help,
        keys::live(Where::Driving, mode) <==> mode == KeyMode::Browse || mode == KeyMode::Edit,
        keys::live(Where::Browse, mode) <==> mode == KeyMode::Browse,
        keys::live(Where::Edit, mode) <==> mode == KeyMode::Edit,
        keys::live(Where::Find, mode) <==> mode == KeyMode::Find,
        keys::live(Where::Help, mode) <==> mode == KeyMode::Help,
{
}

proof fn lemma_default(k: int, from: int)
    requires
        0 <= from <= k < rebind::VERBS,
    ensures
        rebind::default_chord(rebind::name_of(k), from) == rebind::default_of(k),
    decreases k - from,
{
    if from < k {
        if rebind::name_of(from) == rebind::name_of(k) {
            rebind::lemma_names(from, k);
        }
        lemma_default(k, from + 1);
    }
}

/// A verb answers to the chord that it was given last, and to its default where it was
/// given none. What another verb is given does not matter to it.
pub proof fn the_last_chord_counts(
    given: Seq<(Seq<char>, Seq<char>)>,
    k: int,
    j: int,
    chord: Seq<char>,
)
    requires
        0 <= k < rebind::VERBS,
        0 <= j < rebind::VERBS,
        j != k,
    ensures
        rebind::chord_of(seq![], rebind::name_of(k)) == rebind::default_of(k),
        rebind::chord_of(given.push((rebind::name_of(k), chord)), rebind::name_of(k)) == chord,
        rebind::chord_of(given.push((rebind::name_of(j), chord)), rebind::name_of(k))
            == rebind::chord_of(given, rebind::name_of(k)),
{
    lemma_default(k, 0);
    if rebind::name_of(j) == rebind::name_of(k) {
        rebind::lemma_names(j, k);
    }
    assert(given.push((rebind::name_of(k), chord)).drop_last() =~= given);
    assert(given.push((rebind::name_of(j), chord)).drop_last() =~= given);
}

/// A chord is captured only with a modifier other than shift. Escape gives up, and a
/// modifier by itself is waited on.
pub proof fn a_chord_needs_a_modifier(p: Press)
    ensures
        rebind::outcome(p) == Captured::Cancelled <==> p.key@ == "escape"@,
        p.key@ != "escape"@ ==> (rebind::outcome(p) == Captured::Waiting <==> p.key@.len() == 0),
        p.key@ != "escape"@ && p.key@.len() > 0 ==> (rebind::outcome(p) == Captured::Bound <==> p.cmd
            || p.ctrl || p.alt) && (rebind::outcome(p) == Captured::Refused <==> !p.cmd && !p.ctrl
            && !p.alt),
{
}

/// A chord is written as its modifiers, in one order, and then its key.
pub proof fn a_chord_is_written_in_one_order(p: Press)
    ensures
        !p.cmd && !p.ctrl && !p.alt && !p.shift ==> rebind::spelled(p) == p.key@,
        p.cmd && !p.ctrl && !p.alt && !p.shift ==> rebind::spelled(p) == "cmd-"@ + p.key@,
        p.cmd && !p.ctrl && !p.alt && p.shift ==> rebind::spelled(p) == "cmd-shift-"@ + p.key@,
        !p.cmd && p.ctrl && !p.alt && !p.shift ==> rebind::spelled(p) == "ctrl-"@ + p.key@,
        !p.cmd && !p.ctrl && p.alt && !p.shift ==> rebind::spelled(p) == "alt-"@ + p.key@,
        p.cmd && p.ctrl && p.alt && p.shift ==> rebind::spelled(p) == "cmd-ctrl-alt-shift-"@ + p.key@,
{
    reveal_strlit("cmd-");
    reveal_strlit("ctrl-");
    reveal_strlit("alt-");
    reveal_strlit("shift-");
    reveal_strlit("cmd-shift-");
    reveal_strlit("cmd-ctrl-alt-shift-");
    let none = Seq::<char>::empty();
    assert(rebind::spelled(p) =~= rebind::marked(p.cmd, "cmd-"@) + rebind::marked(p.ctrl, "ctrl-"@)
        + rebind::marked(p.alt, "alt-"@) + rebind::marked(p.shift, "shift-"@) + p.key@);
    if !p.cmd && !p.ctrl && !p.alt && !p.shift {
        assert(rebind::spelled(p) =~= p.key@);
    }
    if p.cmd && !p.ctrl && !p.alt && !p.shift {
        assert(rebind::spelled(p) =~= "cmd-"@ + p.key@);
    }
    if p.cmd && !p.ctrl && !p.alt && p.shift {
        assert(rebind::spelled(p) =~= "cmd-shift-"@ + p.key@);
    }
    if !p.cmd && p.ctrl && !p.alt && !p.shift {
        assert(rebind::spelled(p) =~= "ctrl-"@ + p.key@);
    }
    if !p.cmd && !p.ctrl && p.alt && !p.shift {
        assert(rebind::spelled(p) =~= "alt-"@ + p.key@);
    }
    if p.cmd && p.ctrl && p.alt && p.shift {
        assert(rebind::spelled(p) =~= "cmd-ctrl-alt-shift-"@ + p.key@);
    }
}

/// A verb that has a chord is called on by it, and one that has none is not. Nothing else
/// is called on.
pub proof fn every_verb_with_a_chord_is_called(given: Seq<(Seq<char>, Seq<char>)>, n: nat, k: int)
    requires
        0 <= k < n <= rebind::VERBS,
    ensures
        rebind::chord_of(given, rebind::name_of(k)).len() > 0 ==> rebind::called(given, n).contains(
            (
                rebind::chord_of(given, rebind::name_of(k)),
                rebind::action_of(k),
                rebind::where_of(k),
            ),
        ),
        forall|i: int|
            0 <= i < rebind::called(given, n).len() ==> (#[trigger] rebind::called(
                given,
                n,
            )[i]).0.len() > 0,
        rebind::called(given, n).len() <= n,
    decreases n,
{
    let less = (n - 1) as nat;
    let rest = rebind::called(given, less);
    let all = rebind::called(given, n);
    if k < less {
        every_verb_with_a_chord_is_called(given, less, k);
        let entry = (
            rebind::chord_of(given, rebind::name_of(k)),
            rebind::action_of(k),
            rebind::where_of(k),
        );
        if rest.contains(entry) {
            let i = choose|i: int| 0 <= i < rest.len() && rest[i] == entry;
            assert(all[i] == entry);
        }
    } else if less > 0 {
        every_verb_with_a_chord_is_called(given, less, 0);
        assert(rebind::chord_of(given, rebind::name_of(k)).len() > 0 ==> all[all.len() - 1].1
            == rebind::action_of(k));
    } else {
        assert(rest =~= seq![]);
        assert(rebind::chord_of(given, rebind::name_of(k)).len() > 0 ==> all[0].1
            == rebind::action_of(k));
    }
}

/// While browsing a digit gives the colour of that number, and nought takes it away.
pub proof fn a_digit_gives_its_colour(c: Chord)
    requires
        only(c, false, false, false),
    ensures
        c.key == Key::Char('0') ==> keys::browse_meaning(c) == Some(Action::SetColor0),
        c.key == Key::Char('1') ==> keys::browse_meaning(c) == Some(Action::SetColor1),
        c.key == Key::Char('2') ==> keys::browse_meaning(c) == Some(Action::SetColor2),
        c.key == Key::Char('3') ==> keys::browse_meaning(c) == Some(Action::SetColor3),
        c.key == Key::Char('4') ==> keys::browse_meaning(c) == Some(Action::SetColor4),
        c.key == Key::Char('5') ==> keys::browse_meaning(c) == Some(Action::SetColor5),
        c.key == Key::Char('6') ==> keys::browse_meaning(c) == Some(Action::SetColor6),
        c.key matches Key::Char(_) ==> keys::edit_meaning(c) is None && keys::driving_meaning(c) is None
            && keys::session_meaning(c) is None && keys::anywhere_meaning(c) is None,
{
}

/// Home and End go to the root and to the lowest node while browsing, and to the ends of the
/// line while typing; with shift they select up to there.
pub proof fn home_and_end_follow_the_mode(c: Chord)
    ensures
        c.key == Key::Home && only(c, false, false, false) ==> keys::browse_meaning(c) == Some(
            Action::FocusRoot,
        ) && keys::edit_meaning(c) == Some(Action::CaretHome),
        c.key == Key::End && only(c, false, false, false) ==> keys::browse_meaning(c) == Some(
            Action::FocusLast,
        ) && keys::edit_meaning(c) == Some(Action::CaretEnd),
        c.key == Key::Home && only(c, false, false, true) ==> keys::edit_meaning(c) == Some(
            Action::SelectHome,
        ),
        c.key == Key::End && only(c, false, false, true) ==> keys::edit_meaning(c) == Some(
            Action::SelectEnd,
        ),
        c.key == Key::Left && only(c, false, true, false) ==> keys::edit_meaning(c) == Some(
            Action::CaretWordLeft,
        ),
        c.key == Key::Right && only(c, false, true, false) ==> keys::edit_meaning(c) == Some(
            Action::CaretWordRight,
        ),
        c.key == Key::Left && only(c, false, true, true) ==> keys::edit_meaning(c) == Some(
            Action::SelectWordLeft,
        ),
        c.key == Key::Right && only(c, false, true, true) ==> keys::edit_meaning(c) == Some(
            Action::SelectWordRight,
        ),
{
}

/// With command and alt an arrow nudges its own way, whether the map is browsed or typed
/// into.
pub proof fn an_arrow_nudges_while_typing(c: Chord)
    requires
        only(c, true, true, false),
    ensures
        c.key == Key::Left ==> keys::driving_meaning(c) == Some(Action::NudgeLeft),
        c.key == Key::Right ==> keys::driving_meaning(c) == Some(Action::NudgeRight),
        c.key == Key::Up ==> keys::driving_meaning(c) == Some(Action::NudgeUp),
        c.key == Key::Down ==> keys::driving_meaning(c) == Some(Action::NudgeDown),
        c.key == Key::Char('h') ==> keys::anywhere_meaning(c) == Some(Action::HideOthers),
{
}

} // verus!
