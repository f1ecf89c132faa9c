//! Typing into a label: each verb as one step, or as part of one.

use vstd::prelude::*;
use vstd::string::StringSliceAdditionalSpecFns;
use vstd::utf8::*;
use crate::cursor;
use crate::graph::model::GraphModel;
use crate::graph::Mode;
use crate::history::Tag;
use crate::text;
use crate::ui::editor::{Editor, EditorModel};

verus! {

// ---------------------------------------------------------------------------
// Words
// ---------------------------------------------------------------------------

/// Where the white space at the beginning of a text ends.
pub open spec fn gap(chars: Seq<char>) -> int
    decreases chars.len(),
{
    if chars.len() == 0 || !text::char_whitespace(chars[0]) {
        0
    } else {
        1 + gap(chars.skip(1))
    }
}

/// Where the first word of a text that begins with one ends.
pub open spec fn word(chars: Seq<char>) -> int
    decreases chars.len(),
{
    if chars.len() == 0 || text::char_whitespace(chars[0]) {
        0
    } else {
        1 + word(chars.skip(1))
    }
}

proof fn lemma_gap(chars: Seq<char>)
    ensures
        0 <= gap(chars) <= chars.len(),
        gap(chars) < chars.len() ==> !text::char_whitespace(chars[gap(chars)]),
    decreases chars.len(),
{
    if chars.len() > 0 && text::char_whitespace(chars[0]) {
        lemma_gap(chars.skip(1));
        if gap(chars) < chars.len() {
            assert(chars.skip(1)[gap(chars.skip(1))] == chars[gap(chars)]);
        }
    }
}

proof fn lemma_word(chars: Seq<char>)
    ensures
        0 <= word(chars) <= chars.len(),
        chars.len() > 0 && !text::char_whitespace(chars[0]) ==> word(chars) > 0,
    decreases chars.len(),
{
    if chars.len() > 0 && !text::char_whitespace(chars[0]) {
        lemma_word(chars.skip(1));
    }
}

/// The words of a text, with one space between them.
pub open spec fn flattened(chars: Seq<char>) -> Seq<char>
    decreases chars.len(),
    via flattened_shrinks
{
    let begun = chars.skip(gap(chars));
    if begun.len() == 0 {
        seq![]
    } else {
        let k = word(begun);
        let rest = flattened(begun.skip(k));
        if rest.len() == 0 {
            begun.take(k)
        } else {
            begun.take(k) + seq![' '] + rest
        }
    }
}

#[via_fn]
proof fn flattened_shrinks(chars: Seq<char>) {
    lemma_gap(chars);
    let begun = chars.skip(gap(chars));
    lemma_word(begun);
    if begun.len() > 0 {
        assert(begun[0] == chars[gap(chars)]);
    }
}

/// The text so far, and what the rest of it adds.
pub open spec fn joined(so_far: Seq<char>, rest: Seq<char>) -> Seq<char> {
    if so_far.len() == 0 {
        rest
    } else if rest.len() == 0 {
        so_far
    } else {
        so_far + seq![' '] + rest
    }
}

proof fn lemma_gap_step(chars: Seq<char>, i: int)
    requires
        0 <= i < chars.len(),
        text::char_whitespace(chars[i]),
    ensures
        flattened(chars.skip(i)) == flattened(chars.skip(i + 1)),
{
    let a = chars.skip(i);
    let b = chars.skip(i + 1);
    assert(a.skip(1) =~= b);
    assert(a[0] == chars[i]);
    lemma_gap(b);
    assert(a.skip(gap(a)) =~= b.skip(gap(b)));
}

/// The words of a text, with one space between them: what is pasted into a label
/// of one line.
pub fn flatten(s: &str) -> (r: String)
    ensures
        r@ == flattened(s@),
{
    let chars = text::chars(s);
    let n: usize = chars.len();
    let mut out = String::new();
    let mut some = false;
    let mut i: usize = 0;
    assert(chars@.skip(0) =~= chars@);
    while i < n
        invariant
            i <= n,
            n == chars@.len(),
            some == (out@.len() > 0),
            joined(out@, flattened(chars@.skip(i as int))) == flattened(chars@),
        decreases n - i,
    {
        if chars[i].is_whitespace() {
            proof {
                lemma_gap_step(chars@, i as int);
            }
            i = i + 1;
        } else {
            let ghost begun = chars@.skip(i as int);
            let ghost was = out@;
            let from: usize = i;
            proof {
                lemma_word(begun);
                assert(begun[0] == chars@[i as int]);
                assert(begun.skip(gap(begun)) =~= begun);
            }
            if some {
                out.push(' ');
            }
            let ghost head = out@;
            while i < n && !chars[i].is_whitespace()
                invariant
                    from <= i <= n,
                    n == chars@.len(),
                    begun == chars@.skip(from as int),
                    out@ == head + chars@.subrange(from as int, i as int),
                    word(begun) == i - from + word(chars@.skip(i as int)),
                decreases n - i,
            {
                let ghost rest = chars@.skip(i as int);
                assert(rest[0] == chars@[i as int]);
                assert(rest.skip(1) =~= chars@.skip(i + 1));
                out.push(chars[i]);
                assert(out@ =~= head + chars@.subrange(from as int, i + 1));
                i = i + 1;
            }
            proof {
                let rest = chars@.skip(i as int);
                if i < n {
                    assert(rest[0] == chars@[i as int]);
                }
                assert(word(rest) == 0);
                let k = i - from;
                assert(begun.take(k) =~= chars@.subrange(from as int, i as int));
                assert(begun.skip(k) =~= rest);
                let tail = flattened(rest);
                assert(joined(out@, tail) =~= joined(was, flattened(begun)));
            }
            some = true;
        }
    }
    proof {
        assert(chars@.skip(n as int) =~= seq![]);
        assert(flattened(chars@.skip(n as int)) =~= seq![]) by {
            lemma_gap(chars@.skip(n as int));
        }
    }
    out
}

// ---------------------------------------------------------------------------
// The verbs
// ---------------------------------------------------------------------------

impl GraphModel {
    /// The map in typing.
    pub open spec fn writing(self) -> GraphModel {
        if self.mode == Mode::Edit {
            self
        } else {
            (GraphModel { mode: Mode::Edit, ..self }).caret_at_end()
        }
    }

    /// The label that the text clipboard acts on as a whole, unless part of it is
    /// selected.
    pub open spec fn part_selected(self) -> Option<Seq<u8>> {
        match self.selected_range() {
            Some((a, b)) => if text::boundary(self.active_bytes(), a) && text::boundary(
                self.active_bytes(),
                b,
            ) {
                Some(self.active_bytes().subrange(a, b))
            } else {
                None
            },
            None => None,
        }
    }
}

/// A verb that types: it is part of the step of typing into that label.
pub open spec fn typed(e: EditorModel, after: GraphModel) -> EditorModel {
    e.recorded(e.graph.text_tag()).with(after)
}

impl Editor {
    /// Opens the label for typing, or leaves it.
    pub fn commit(&mut self)
        ensures
            final(self)@ == (if old(self)@.graph.mode == Mode::Edit {
                old(self)@.with(old(self)@.graph.browsing()).sealed()
            } else {
                old(self)@.with(old(self)@.graph.writing())
            }),
    {
        if self.graph.is_editing() {
            self.graph.leave_edit();
            self.history.seal();
        } else {
            self.graph.enter_edit();
        }
    }

    /// A character that was typed. No caret, no change.
    pub fn type_char(&mut self, c: char) -> (r: bool)
        requires
            old(self)@.graph.anchor_ok(),
        ensures
            r == (old(self)@.graph.mode == Mode::Edit),
            final(self)@ == (if r {
                typed(old(self)@, old(self)@.graph.inserted(seq![c]))
            } else {
                old(self)@
            }),
    {
        if !self.graph.is_editing() {
            return false;
        }
        let tag = self.text_tag();
        self.edit(tag);
        self.graph.insert_char(c);
        true
    }

    /// Deletes back. Nothing is noted where there is nothing behind the caret.
    pub fn backspace(&mut self) -> (r: bool)
        requires
            old(self)@.graph.anchor_ok(),
        ensures
            ({
                let g = old(self)@.graph;
                &&& r == (g.mode == Mode::Edit && (g.selected_range() is Some || (g.caret > 0
                    && g.active_bytes().len() > 0)))
                &&& final(self)@ == (if r {
                    typed(old(self)@, g.backspaced())
                } else {
                    old(self)@
                })
            }),
    {
        if !self.graph.is_editing() || !self.graph.can_backspace() {
            return false;
        }
        let tag = self.text_tag();
        self.edit(tag);
        self.graph.backspace();
        true
    }

    /// Deletes forward. Nothing is noted where there is nothing ahead of the
    /// caret.
    pub fn delete_forward(&mut self) -> (r: bool)
        requires
            old(self)@.graph.anchor_ok(),
        ensures
            ({
                let g = old(self)@.graph;
                &&& r == (g.mode == Mode::Edit && (g.selected_range() is Some || g.caret
                    < g.active_bytes().len()))
                &&& final(self)@ == (if r {
                    typed(old(self)@, g.deleted_forward())
                } else {
                    old(self)@
                })
            }),
    {
        if !self.graph.is_editing() || !self.graph.can_delete_forward() {
            return false;
        }
        let tag = self.text_tag();
        self.edit(tag);
        self.graph.delete_forward();
        true
    }

    /// Deletes the word before the caret, as a step of its own. Nothing is noted
    /// where there is none.
    pub fn delete_word(&mut self) -> (r: bool)
        requires
            old(self)@.graph.anchor_ok(),
            old(self)@.graph.caret_ok(),
        ensures
            ({
                let g = old(self)@.graph;
                &&& r == (g.mode == Mode::Edit && (g.selected_range() is Some || cursor::word_start(
                    g.active_text(),
                    g.caret as int,
                ) != g.caret))
                &&& final(self)@ == (if r {
                    old(self)@.recorded(Tag::Structure).with(g.word_deleted_left())
                } else {
                    old(self)@
                })
            }),
    {
        proof {
            encode_utf8_valid_utf8(self@.graph.active_text());
            text::lemma_boundary(self@.graph.active_bytes(), self@.graph.caret as int);
        }
        if !self.graph.is_editing() || !self.graph.can_delete_word_left() {
            return false;
        }
        self.edit(Tag::Structure);
        self.graph.delete_word_left();
        true
    }

    /// Empties the label that is typed into, as a step of its own. Nothing is
    /// noted where it is empty.
    pub fn clear(&mut self) -> (r: bool)
        ensures
            r == (old(self)@.graph.mode == Mode::Edit && old(self)@.graph.active_text().len() > 0),
            final(self)@ == (if r {
                old(self)@.recorded(Tag::Structure).with(emptied(old(self)@.graph))
            } else {
                old(self)@
            }),
    {
        if !self.graph.is_editing() {
            return false;
        }
        if text::chars(self.graph.active_text()).len() == 0 {
            return false;
        }
        self.edit(Tag::Structure);
        let none = String::new();
        self.graph.set_focused_text(none);
        proof {
            encode_utf8_decode_utf8(Seq::<char>::empty());
            assert(none@ =~= Seq::<char>::empty());
        }
        true
    }

    /// What the text clipboard acts on: what is selected of the label, or else the
    /// whole of it; nothing if it is empty.
    pub fn clipboard_text(&self) -> (r: Option<String>)
        ensures
            match self@.graph.part_selected() {
                Some(part) => r matches Some(s) && encode_utf8(s@) == part,
                None => match r {
                    Some(s) => s@ == self@.graph.active_text() && s@.len() > 0,
                    None => self@.graph.active_text().len() == 0,
                },
            },
    {
        match self.graph.selected_text() {
            Some(s) => {
                proof {
                    text::lemma_str(s);
                }
                Some(s.to_owned())
            },
            None => {
                let all = self.graph.active_text();
                if text::chars(all).len() > 0 {
                    Some(all.to_owned())
                } else {
                    None
                }
            },
        }
    }

    /// Pastes the words of a text into the label, which is opened for typing if it
    /// was not. Nothing is noted where there are no words.
    pub fn paste_text(&mut self, s: &str) -> (r: bool)
        requires
            old(self)@.graph.anchor_ok(),
        ensures
            r == (flattened(s@).len() > 0),
            final(self)@ == (if r {
                let e = old(self)@.with(old(self)@.graph.writing());
                e.recorded(Tag::Structure).with(e.graph.inserted(flattened(s@)))
            } else {
                old(self)@
            }),
    {
        let flat = flatten(s);
        if text::chars(flat.as_str()).len() == 0 {
            return false;
        }
        if !self.graph.is_editing() {
            self.graph.enter_edit();
        }
        self.edit(Tag::Structure);
        self.graph.insert_str(flat.as_str());
        true
    }

    /// Takes out what the text clipboard acts on. The label is opened for typing
    /// if it was not. Nothing is noted where it is empty.
    pub fn cut_text(&mut self) -> (r: Option<String>)
        requires
            old(self)@.graph.anchor_ok(),
            old(self)@.graph.caret_ok(),
        ensures
            match self_text(old(self)@.graph) {
                true => r is Some && final(self)@ == ({
                    let e = old(self)@.with(old(self)@.graph.writing());
                    e.recorded(Tag::Structure).with(
                        if e.graph.selected_range() is Some {
                            e.graph.selection_deleted()
                        } else {
                            emptied(e.graph)
                        },
                    )
                }),
                false => r is None && final(self)@ == old(self)@,
            },
            match old(self)@.graph.part_selected() {
                Some(part) => r matches Some(s) && encode_utf8(s@) == part,
                None => r matches Some(s) ==> s@ == old(self)@.graph.active_text(),
            },
    {
        let taken = match self.clipboard_text() {
            Some(s) => s,
            None => {
                return None;
            },
        };
        if !self.graph.is_editing() {
            self.graph.enter_edit();
            let len: usize = self.graph.active_text().as_bytes().len();
            proof {
                let b = self@.graph.active_bytes();
                assert(b.len() == len);
                encode_utf8_valid_utf8(self@.graph.active_text());
                is_char_boundary_start_end_of_seq(b);
                text::lemma_boundary(b, b.len() as int);
            }
        }
        self.edit(Tag::Structure);
        if !self.graph.delete_selection() {
            let none = String::new();
            self.graph.set_focused_text(none);
            proof {
                assert(none@ =~= Seq::<char>::empty());
            }
        }
        Some(taken)
    }
}

/// There is something for the text clipboard to act on.
pub open spec fn self_text(g: GraphModel) -> bool {
    g.part_selected() is Some || g.active_text().len() > 0
}

/// A map whose label that is typed into is empty.
pub open spec fn emptied(g: GraphModel) -> GraphModel {
    GraphModel {
        caret: encode_utf8(Seq::<char>::empty()).len() as usize,
        anchor: None,
        ..g.with_active_text(Seq::empty())
    }
}

/// Words have no line breaks: what is pasted into a label stays on its line.
pub proof fn words_stay_on_a_line(chars: Seq<char>)
    ensures
        forall|i: int|
            0 <= i < flattened(chars).len() ==> (#[trigger] flattened(chars)[i] == ' '
                || !text::char_whitespace(flattened(chars)[i])),
    decreases chars.len(),
{
    lemma_gap(chars);
    let begun = chars.skip(gap(chars));
    if begun.len() > 0 {
        lemma_word(begun);
        assert(begun[0] == chars[gap(chars)]);
        let k = word(begun);
        let rest = begun.skip(k);
        words_stay_on_a_line(rest);
        lemma_word_chars(begun);
        assert forall|i: int| 0 <= i < flattened(chars).len() implies (#[trigger] flattened(
            chars,
        )[i] == ' ' || !text::char_whitespace(flattened(chars)[i])) by {
            if i < k {
                assert(flattened(chars)[i] == begun[i]);
            } else if i > k {
                assert(flattened(chars)[i] == flattened(rest)[i - k - 1]);
            }
        }
    }
}

proof fn lemma_word_chars(chars: Seq<char>)
    ensures
        forall|i: int| 0 <= i < word(chars) ==> !text::char_whitespace(#[trigger] chars[i]),
    decreases chars.len(),
{
    if chars.len() > 0 && !text::char_whitespace(chars[0]) {
        lemma_word(chars);
        lemma_word_chars(chars.skip(1));
        assert forall|i: int| 0 <= i < word(chars) implies !text::char_whitespace(
            #[trigger] chars[i],
        ) by {
            if i > 0 {
                assert(chars.skip(1)[i - 1] == chars[i]);
            }
        }
    }
}

} // verus!
