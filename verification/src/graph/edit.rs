//! Editing the active text: the caret, the text selection, typing and deleting.

use vstd::prelude::*;
use vstd::utf8::*;
use vstd::string::StringSliceAdditionalSpecFns;
use crate::ascii;
use crate::cursor;
use crate::graph::model;
use crate::graph::model::GraphModel;
use crate::graph::{Edge, Graph, Mode, Node, Selection};
use crate::text;

verus! {

broadcast use {vstd::std_specs::hash::group_hash_axioms, vstd::std_specs::btree::group_btree_axioms};

/// `at`, or the end of `b` before it.
pub open spec fn within(at: int, b: Seq<u8>) -> int {
    if at <= b.len() {
        at
    } else {
        b.len() as int
    }
}

impl GraphModel {
    /// The caret and the anchor lie inside the active text, at character
    /// boundaries, and apart.
    pub open spec fn text_ok(self) -> bool {
        self.caret_ok() && self.anchor_ok() && self.anchor != Some(self.caret)
    }

    /// There is a text to edit.
    pub open spec fn live(self) -> bool {
        self.selection() matches Selection::Node(n) ==> self.nodes.dom().contains(n)
    }

    /// The cluster before the caret deleted, or the selection.
    pub open spec fn backspaced(self) -> GraphModel {
        let g = self.clamped();
        let at = g.caret as int;
        match (g.selected_range(), cursor::last_cluster(cursor::head(g.active_text(), at))) {
            (None, Some(start)) => GraphModel {
                caret: start,
                ..g.spliced(start as int, at, seq![])
            },
            _ => g.selection_deleted(),
        }
    }

    /// The cluster after the caret deleted, or the selection.
    pub open spec fn deleted_forward(self) -> GraphModel {
        let g = self.clamped();
        let at = g.caret as int;
        match (g.selected_range(), cursor::cluster_end(g.active_text(), at)) {
            (None, Some(end)) => g.spliced(at, end, seq![]),
            _ => g.selection_deleted(),
        }
    }

    /// The text from the start of the previous word to the caret deleted, or the
    /// selection.
    pub open spec fn word_deleted_left(self) -> GraphModel {
        let g = self.clamped();
        let at = g.caret as int;
        let start = cursor::word_start(g.active_text(), at);
        if g.selected_range() is None && start != at {
            GraphModel { caret: start as usize, ..g.spliced(start, at, seq![]) }
        } else {
            g.selection_deleted()
        }
    }

    /// The caret one cluster to the left; off the left edge of a selection that
    /// is not being dragged.
    pub open spec fn moved_left(self, extend: bool) -> GraphModel {
        let g = self.clamped();
        match (extend, g.selected_range()) {
            (false, Some((a, b))) => g.caret_placed(a, false),
            _ => match cursor::last_cluster(cursor::head(g.active_text(), g.caret as int)) {
                Some(at) => g.caret_placed(at as int, extend),
                None => g.caret_placed(g.caret as int, extend),
            },
        }
    }

    /// The caret one cluster to the right; off the right edge of a selection that
    /// is not being dragged.
    pub open spec fn moved_right(self, extend: bool) -> GraphModel {
        let g = self.clamped();
        match (extend, g.selected_range()) {
            (false, Some((a, b))) => g.caret_placed(b, false),
            _ => match cursor::cluster_end(g.active_text(), g.caret as int) {
                Some(at) => g.caret_placed(at, extend),
                None => g.caret_placed(g.caret as int, extend),
            },
        }
    }

    /// The caret where its line begins.
    pub open spec fn moved_home(self, extend: bool) -> GraphModel {
        let b = self.active_bytes();
        self.caret_placed(model::line_start_of(b, within(self.caret as int, b)), extend)
    }

    /// The caret where its line ends.
    pub open spec fn moved_end(self, extend: bool) -> GraphModel {
        let b = self.active_bytes();
        self.caret_placed(model::line_end_of(b, within(self.caret as int, b)), extend)
    }

    /// The caret on the line above, in the same column or at that line's end; at
    /// the start of the text from the first line.
    pub open spec fn moved_up(self, extend: bool) -> GraphModel {
        let g = self.clamped();
        let b = g.active_bytes();
        let ls = model::line_start_of(b, g.caret as int);
        if ls == 0 {
            g.moved_home(extend)
        } else {
            let above = model::line_start_of(b, ls - 1);
            let wanted = above + (g.caret - ls);
            g.caret_placed(
                g.snapped(
                    if wanted < ls - 1 {
                        wanted
                    } else {
                        ls - 1
                    },
                ),
                extend,
            )
        }
    }

    /// The caret on the line below, in the same column or at that line's end; at
    /// the end of the text from the last line.
    pub open spec fn moved_down(self, extend: bool) -> GraphModel {
        let g = self.clamped();
        let b = g.active_bytes();
        let le = model::line_end_of(b, g.caret as int);
        if le == b.len() {
            g.moved_end(extend)
        } else {
            let ls = model::line_start_of(b, g.caret as int);
            let wanted = le + 1 + (g.caret - ls);
            let below = model::line_end_of(b, le + 1);
            g.caret_placed(
                g.snapped(
                    if wanted < below {
                        wanted
                    } else {
                        below
                    },
                ),
                extend,
            )
        }
    }
}

proof fn lemma_line_start(b: Seq<u8>, at: int)
    requires
        valid_utf8(b),
        text::boundary(b, at),
    ensures
        0 <= model::line_start_of(b, at) <= at,
        text::boundary(b, model::line_start_of(b, at)),
        model::line_start_of(b, at) > 0 ==> b[model::line_start_of(b, at) - 1] == ascii::NEWLINE,
{
    text::lemma_boundary(b, 0);
    is_char_boundary_start_end_of_seq(b);
    lemma_line_start_found(b, at);
    let ls = model::line_start_of(b, at);
    if ls > 0 {
        text::lemma_ascii_boundary(b, ls - 1);
    }
}

proof fn lemma_line_start_found(b: Seq<u8>, at: int)
    requires
        0 <= at <= b.len(),
    ensures
        0 <= model::line_start_of(b, at) <= at,
        model::line_start_of(b, at) > 0 ==> b[model::line_start_of(b, at) - 1] == ascii::NEWLINE,
    decreases at,
{
    if at > 0 && b[at - 1] != ascii::NEWLINE {
        lemma_line_start_found(b, at - 1);
    }
}

proof fn lemma_line_end(b: Seq<u8>, at: int)
    requires
        valid_utf8(b),
        0 <= at <= b.len(),
    ensures
        at <= model::line_end_of(b, at) <= b.len(),
        text::boundary(b, model::line_end_of(b, at)),
        model::line_end_of(b, at) < b.len() ==> b[model::line_end_of(b, at)] == ascii::NEWLINE,
    decreases b.len() - at,
{
    if at < b.len() {
        if b[at] == ascii::NEWLINE {
            text::lemma_ascii_boundary(b, at);
        } else {
            lemma_line_end(b, at + 1);
        }
    }
}

/// What a splice leaves in bytes.
proof fn lemma_splice(s: Seq<char>, a: int, b: int, with: Seq<char>)
    requires
        0 <= a <= b,
        text::boundary(encode_utf8(s), a),
        text::boundary(encode_utf8(s), b),
    ensures
        encode_utf8(model::splice(s, a, b, with)) == encode_utf8(s).subrange(0, a) + encode_utf8(
            with,
        ) + encode_utf8(s).subrange(b, encode_utf8(s).len() as int),
        text::boundary(encode_utf8(model::splice(s, a, b, with)), a),
        text::boundary(
            encode_utf8(model::splice(s, a, b, with)),
            a + encode_utf8(with).len(),
        ),
{
    let bytes = encode_utf8(s);
    let n = bytes.len() as int;
    encode_utf8_valid_utf8(s);
    text::lemma_boundary(bytes, 0);
    is_char_boundary_start_end_of_seq(bytes);
    text::lemma_part_encodes(bytes, 0, a);
    text::lemma_part_encodes(bytes, b, n);
    let h = cursor::head(s, a);
    let t = cursor::tail(s, b);
    text::lemma_encode_concat(h, with);
    text::lemma_encode_concat(h + with, t);
    encode_utf8_valid_utf8(with);
    encode_utf8_valid_utf8(t);
    encode_utf8_valid_utf8(with + t);
    text::lemma_encode_concat(with, t);
    assert(encode_utf8(h) + encode_utf8(with) + encode_utf8(t) =~= encode_utf8(h) + encode_utf8(
        with + t,
    ));
    text::lemma_join_boundary(encode_utf8(h), encode_utf8(with + t));
    text::lemma_join_boundary(encode_utf8(h) + encode_utf8(with), encode_utf8(t));
}

impl Graph {
    pub fn is_editing(&self) -> (r: bool)
        ensures
            r == (self@.mode == Mode::Edit),
    {
        self.mode == Mode::Edit
    }

    /// Park the caret after the active text with nothing selected. What every
    /// gesture that changes which text is active wants.
    pub fn caret_to_end(&mut self)
        ensures
            final(self)@ == old(self)@.caret_at_end(),
            final(self)@.text_ok(),
            final(self).nodes == old(self).nodes,
            final(self).edges == old(self).edges,
    {
        let n: usize = self.active_text().as_bytes().len();
        self.caret = n;
        self.anchor = None;
        proof {
            encode_utf8_valid_utf8(self@.active_text());
        }
    }

    /// Enter text editing with the caret at the end of the current text.
    pub fn enter_edit(&mut self)
        ensures
            final(self)@ == (GraphModel { mode: Mode::Edit, ..old(self)@ }).caret_at_end(),
    {
        self.mode = Mode::Edit;
        self.caret_to_end();
    }

    /// Back to browsing. A highlight left painted behind a node you are only
    /// looking at would claim the arrows still edit it.
    pub fn leave_edit(&mut self)
        ensures
            final(self)@ == (GraphModel { mode: Mode::Browse, anchor: None, ..old(self)@ }),
    {
        self.mode = Mode::Browse;
        self.anchor = None;
    }

    pub fn toggle_edit(&mut self)
        ensures
            final(self)@ == (if old(self)@.mode == Mode::Edit {
                GraphModel { mode: Mode::Browse, anchor: None, ..old(self)@ }
            } else {
                (GraphModel { mode: Mode::Edit, ..old(self)@ }).caret_at_end()
            }),
    {
        if self.is_editing() {
            self.leave_edit();
        } else {
            self.enter_edit();
        }
    }

    pub fn caret(&self) -> (r: usize)
        ensures
            r == (if self@.caret <= self@.active_bytes().len() {
                self@.caret as int
            } else {
                self@.active_bytes().len() as int
            }),
    {
        let n: usize = self.active_text().as_bytes().len();
        if self.caret <= n {
            self.caret
        } else {
            n
        }
    }

    /// Keep the caret inside the text and on a char boundary. Called after
    /// anything that can change which text is active or how long it is.
    pub fn clamp_caret(&mut self)
        ensures
            final(self)@ == old(self)@.clamped(),
            final(self)@.caret_ok(),
            final(self)@.caret <= old(self)@.caret,
    {
        let ghost b = self@.active_bytes();
        let ghost before = self@;
        proof {
            encode_utf8_valid_utf8(self@.active_text());
            text::lemma_boundary(b, 0);
            is_char_boundary_start_end_of_seq(b);
        }
        let text = self.active_text();
        let n: usize = text.as_bytes().len();
        let mut at: usize = self.caret;
        if at > n {
            self.caret = n;
            return;
        }
        // Walk back to a boundary rather than splitting a character.
        while at > 0 && !text.is_char_boundary(at)
            invariant
                at <= n,
                n == b.len(),
                b == text.spec_bytes(),
                valid_utf8(b),
                text::boundary(b, 0),
                at <= self.caret,
                model::clamped_offset(b, self.caret as int) == model::clamped_offset(b, at as int),
            decreases at,
        {
            proof {
                text::lemma_boundary(b, at as int);
            }
            at = at - 1;
        }
        proof {
            text::lemma_boundary(b, at as int);
        }
        self.caret = at;
    }

    /// Put another text in place of the active one.
    fn replace_active(&mut self, t: String)
        ensures
            final(self)@ == old(self)@.with_active_text(t@),
    {
        match self.selection() {
            Selection::Edge(e) => {
                match self.edges.remove(&e) {
                    Some(edge) => {
                        self.edges.insert(e, Edge { from: edge.from, to: edge.to, label: t });
                    },
                    None => {},
                }
                assert(self@.edges =~= old(self)@.with_active_text(t@).edges);
            },
            Selection::Node(n) => {
                match self.nodes.remove(&n) {
                    Some(node) => {
                        let mut node = node;
                        node.text = t;
                        self.nodes.insert(n, node);
                    },
                    None => {},
                }
                assert(self@.nodes =~= old(self)@.with_active_text(t@).nodes);
            },
        }
    }

    /// Replace the bytes from `a` to `b` of the active text; the result is where
    /// what was put there ends.
    fn splice_active(&mut self, a: usize, b: usize, with: &str) -> (end: usize)
        requires
            a <= b,
            text::boundary(old(self)@.active_bytes(), a as int),
            text::boundary(old(self)@.active_bytes(), b as int),
        ensures
            final(self)@ == old(self)@.spliced(a as int, b as int, with@),
            end == a + with.spec_bytes().len(),
            end <= encode_utf8(
                model::splice(old(self)@.active_text(), a as int, b as int, with@),
            ).len(),
    {
        let text = self.active_text();
        let mut t = cursor::head_of(text, a).to_owned();
        t.push_str(with);
        t.push_str(cursor::tail_of(text, b));
        proof {
            lemma_splice(self@.active_text(), a as int, b as int, with@);
            assert(t@ =~= model::splice(self@.active_text(), a as int, b as int, with@));
        }
        let _n: usize = t.as_str().as_bytes().len();
        let w: usize = with.as_bytes().len();
        self.replace_active(t);
        a + w
    }

    /// Set the active text, with the caret after it. Only while editing.
    pub fn set_focused_text(&mut self, text: String)
        ensures
            final(self)@ == (if old(self)@.mode == Mode::Edit {
                GraphModel {
                    caret: encode_utf8(text@).len() as usize,
                    anchor: None,
                    ..old(self)@.with_active_text(text@)
                }
            } else {
                old(self)@
            }),
    {
        if !self.is_editing() {
            return;
        }
        let caret: usize = text.as_str().as_bytes().len();
        self.replace_active(text);
        self.caret = caret;
        self.anchor = None;
    }

    // ---- selection ------------------------------------------------------

    /// The selected byte range, or `None` when the caret stands alone. Ordered,
    /// so callers never have to work out which end the anchor is.
    pub fn selected_range(&self) -> (r: Option<(usize, usize)>)
        ensures
            self@.selected_range() == (match r {
                Some((a, b)) => Some((a as int, b as int)),
                None => None,
            }),
    {
        match self.anchor {
            Some(a) => if a < self.caret {
                Some((a, self.caret))
            } else if a > self.caret {
                Some((self.caret, a))
            } else {
                None
            },
            None => None,
        }
    }

    /// The selected text; nothing where the range does not lie in the text.
    pub fn selected_text(&self) -> (r: Option<&str>)
        ensures
            r is Some <==> (self@.selected_range() matches Some((a, b)) && text::boundary(
                self@.active_bytes(),
                a,
            ) && text::boundary(self@.active_bytes(), b)),
            r matches Some(t) ==> (self@.selected_range() matches Some((a, b)) && t.spec_bytes()
                == self@.active_bytes().subrange(a, b)),
    {
        match self.selected_range() {
            Some((a, b)) => {
                let t = self.active_text();
                let n: usize = t.as_bytes().len();
                proof {
                    text::lemma_str(t);
                    text::lemma_boundary(t.spec_bytes(), a as int);
                    text::lemma_boundary(t.spec_bytes(), b as int);
                }
                if b <= n && t.is_char_boundary(a) && t.is_char_boundary(b) {
                    Some(text::slice(t, a, b))
                } else {
                    None
                }
            },
            None => None,
        }
    }

    /// Select the whole text. True when that changed anything.
    pub fn select_all(&mut self) -> (changed: bool)
        ensures
            ({
                let n = old(self)@.active_bytes().len();
                &&& n == 0 ==> !changed && final(self)@ == old(self)@
                &&& n > 0 ==> final(self)@ == (GraphModel {
                    anchor: Some(0),
                    caret: n as usize,
                    ..old(self)@
                }) && changed == (old(self)@ != final(self)@)
            }),
    {
        let n: usize = self.active_text().as_bytes().len();
        if n == 0 {
            return false;
        }
        let anchored = match self.anchor {
            Some(a) => a == 0,
            None => false,
        };
        let changed = !anchored || self.caret != n;
        self.anchor = Some(0);
        self.caret = n;
        proof {
            if !changed {
                assert(self@ =~= old(self)@);
            } else {
                assert(self@.anchor != old(self)@.anchor || self@.caret != old(self)@.caret);
            }
        }
        changed
    }

    /// Select the word `at` falls in — the double-click gesture.
    pub fn select_word_at(&mut self, at: usize) -> (r: bool)
        ensures
            ({
                let (a, b) = cursor::word_range(old(self)@.active_text(), at as int);
                &&& r == (a != b)
                &&& final(self)@ == (if a == b {
                    old(self)@
                } else {
                    GraphModel { anchor: Some(a as usize), caret: b as usize, ..old(self)@ }
                })
                &&& r ==> final(self)@.text_ok()
            }),
    {
        let (a, b) = cursor::word_at(self.active_text(), at);
        if a == b {
            return false;
        }
        self.anchor = Some(a);
        self.caret = b;
        true
    }

    /// Move the caret to `at`. `extend` drags the selection along with it;
    /// otherwise the selection collapses. Returns whether caret or selection
    /// changed: collapsing a selection in place is a change.
    fn place_caret(&mut self, at: usize, extend: bool) -> (changed: bool)
        ensures
            final(self)@ == old(self)@.caret_placed(at as int, extend),
            changed == (final(self)@ != old(self)@),
            text::boundary(old(self)@.active_bytes(), at as int) && old(self)@.anchor_ok() && (
            extend ==> old(self)@.anchor is Some || old(self)@.caret_ok())
                ==> final(self)@.text_ok(),
    {
        let before_caret: usize = self.caret;
        let before_anchor: Option<usize> = self.anchor;
        let anchor: usize = if extend {
            match self.anchor {
                Some(a) => a,
                None => self.caret,
            }
        } else {
            at
        };
        self.caret = at;
        // An anchor the caret has walked back onto is not a selection.
        self.anchor = if anchor == at {
            None
        } else {
            Some(anchor)
        };
        let same_anchor = match (self.anchor, before_anchor) {
            (Some(a), Some(b)) => a == b,
            (None, None) => true,
            _ => false,
        };
        let changed = self.caret != before_caret || !same_anchor;
        proof {
            if changed {
                assert(self@.caret != old(self)@.caret || self@.anchor != old(self)@.anchor);
            } else {
                assert(self@ =~= old(self)@);
            }
        }
        changed
    }

    /// Insert a whole string at the caret — what paste lands on. Typing over a
    /// selection replaces it.
    pub fn insert_str(&mut self, s: &str)
        requires
            old(self)@.anchor_ok(),
        ensures
            final(self)@ == (if old(self)@.mode == Mode::Edit && s@.len() > 0 {
                old(self)@.inserted(s@)
            } else {
                old(self)@
            }),
            old(self)@.live() && old(self)@.text_ok() ==> final(self)@.text_ok(),
    {
        if !self.is_editing() || s.is_empty() {
            return;
        }
        self.insert_text(s);
    }

    /// Insert at the caret, not at the end.
    pub fn insert_char(&mut self, c: char)
        requires
            old(self)@.anchor_ok(),
        ensures
            final(self)@ == (if old(self)@.mode == Mode::Edit {
                old(self)@.inserted(seq![c])
            } else {
                old(self)@
            }),
            old(self)@.live() && old(self)@.text_ok() ==> final(self)@.text_ok(),
    {
        if !self.is_editing() {
            return;
        }
        let mut s = String::new();
        s.push(c);
        assert(s@ =~= seq![c]);
        self.insert_text(s.as_str());
    }

    fn insert_text(&mut self, s: &str)
        requires
            old(self)@.anchor_ok(),
        ensures
            final(self)@ == old(self)@.inserted(s@),
            old(self)@.live() && old(self)@.text_ok() ==> final(self)@.text_ok(),
    {
        self.clamp_caret();
        self.delete_selection();
        let ghost g = self@;
        let at: usize = self.caret;
        let end: usize = self.splice_active(at, at, s);
        self.caret = end;
        proof {
            lemma_splice(g.active_text(), at as int, at as int, s@);
        }
    }

    /// Remove the selection from the text, leaving the caret where it was.
    /// The one place any editing operation is allowed to consume a selection.
    pub fn delete_selection(&mut self) -> (r: bool)
        requires
            old(self)@.caret_ok(),
            old(self)@.anchor_ok(),
        ensures
            r == (old(self)@.selected_range() is Some),
            final(self)@ == old(self)@.selection_deleted(),
            final(self)@.caret_ok(),
            old(self)@.live() ==> final(self)@.live(),
            r ==> final(self)@.anchor is None,
            old(self)@.anchor_ok() && !r ==> final(self)@.anchor_ok(),
    {
        match self.selected_range() {
            Some((a, b)) => {
                self.splice_active(a, b, "");
                self.caret = a;
                self.anchor = None;
                proof {
                    reveal_strlit("");
                    assert(""@ =~= Seq::<char>::empty());
                    lemma_splice(old(self)@.active_text(), a as int, b as int, seq![]);
                    assert(self@ =~= old(self)@.selection_deleted());
                }
                true
            },
            None => false,
        }
    }

    /// Delete the grapheme cluster before the caret, so a flag emoji or a
    /// combining accent goes in one press instead of falling apart.
    pub fn backspace(&mut self)
        requires
            old(self)@.anchor_ok(),
        ensures
            final(self)@ == (if old(self)@.mode == Mode::Edit {
                old(self)@.backspaced()
            } else {
                old(self)@
            }),
            old(self)@.text_ok() ==> final(self)@.text_ok(),
    {
        if !self.is_editing() {
            return;
        }
        self.clamp_caret();
        if self.delete_selection() {
            return;
        }
        let ghost g = self@;
        let at: usize = self.caret;
        match cursor::grapheme_start_before(self.active_text(), at) {
            Some(start) => {
                self.splice_active(start, at, "");
                self.caret = start;
                proof {
                    reveal_strlit("");
                    assert(""@ =~= Seq::<char>::empty());
                    lemma_splice(g.active_text(), start as int, at as int, seq![]);
                }
            },
            None => {},
        }
    }

    /// Whether ⌫ would remove anything.
    pub fn can_backspace(&self) -> (r: bool)
        ensures
            r == (self@.selected_range() is Some || (self@.caret > 0
                && self@.active_bytes().len() > 0)),
    {
        self.selected_range().is_some() || self.caret() > 0
    }

    /// Whether ⌦ would remove anything. Callers check first so a no-op never
    /// pushes an undo step.
    pub fn can_delete_forward(&self) -> (r: bool)
        ensures
            r == (self@.selected_range() is Some || self@.caret < self@.active_bytes().len()),
    {
        self.selected_range().is_some() || self.caret() < self.active_text().as_bytes().len()
    }

    /// Whether ⌥⌫ would remove anything.
    pub fn can_delete_word_left(&self) -> (r: bool)
        requires
            text::boundary(
                self@.active_bytes(),
                within(self@.caret as int, self@.active_bytes()),
            ),
        ensures
            r == (self@.selected_range() is Some || cursor::word_start(
                self@.active_text(),
                within(self@.caret as int, self@.active_bytes()),
            ) != within(self@.caret as int, self@.active_bytes())),
    {
        if self.selected_range().is_some() {
            return true;
        }
        let at: usize = self.caret();
        cursor::word_start_before(self.active_text(), at) != at
    }

    /// Delete the grapheme after the caret (forward delete).
    pub fn delete_forward(&mut self)
        requires
            old(self)@.anchor_ok(),
        ensures
            final(self)@ == (if old(self)@.mode == Mode::Edit {
                old(self)@.deleted_forward()
            } else {
                old(self)@
            }),
            old(self)@.text_ok() ==> final(self)@.text_ok(),
    {
        if !self.is_editing() {
            return;
        }
        self.clamp_caret();
        if self.delete_selection() {
            return;
        }
        let ghost g = self@;
        let at: usize = self.caret;
        match cursor::grapheme_end_after(self.active_text(), at) {
            Some(end) => {
                self.splice_active(at, end, "");
                proof {
                    reveal_strlit("");
                    assert(""@ =~= Seq::<char>::empty());
                    lemma_splice(g.active_text(), at as int, end as int, seq![]);
                }
            },
            None => {},
        }
    }

    /// Delete from the start of the previous word to the caret (⌥⌫).
    pub fn delete_word_left(&mut self)
        requires
            old(self)@.anchor_ok(),
        ensures
            final(self)@ == (if old(self)@.mode == Mode::Edit {
                old(self)@.word_deleted_left()
            } else {
                old(self)@
            }),
            old(self)@.text_ok() ==> final(self)@.text_ok(),
    {
        if !self.is_editing() {
            return;
        }
        self.clamp_caret();
        if self.delete_selection() {
            return;
        }
        let ghost g = self@;
        let at: usize = self.caret;
        let start: usize = cursor::word_start_before(self.active_text(), at);
        if start == at {
            return;
        }
        self.splice_active(start, at, "");
        self.caret = start;
        proof {
            reveal_strlit("");
            assert(""@ =~= Seq::<char>::empty());
            lemma_splice(g.active_text(), start as int, at as int, seq![]);
        }
    }

    // ---- caret movement -------------------------------------------------
    //
    // Every motion takes `extend`: false collapses the selection, true drags it.

    pub fn caret_left(&mut self, extend: bool) -> (changed: bool)
        ensures
            final(self)@ == old(self)@.moved_left(extend),
            changed == (final(self)@ != old(self)@.clamped()),
            old(self)@.anchor_ok() ==> final(self)@.text_ok(),
    {
        self.clamp_caret();
        // Unextended, ← steps off the left edge of a selection rather than one
        // character back from the caret.
        if !extend {
            match self.selected_range() {
                Some((a, _)) => {
                    return self.place_caret(a, false);
                },
                None => {},
            }
        }
        match cursor::grapheme_start_before(self.active_text(), self.caret) {
            Some(at) => self.place_caret(at, extend),
            None => self.place_caret(self.caret, extend),
        }
    }

    pub fn caret_right(&mut self, extend: bool) -> (changed: bool)
        ensures
            final(self)@ == old(self)@.moved_right(extend),
            changed == (final(self)@ != old(self)@.clamped()),
            old(self)@.anchor_ok() ==> final(self)@.text_ok(),
    {
        self.clamp_caret();
        if !extend {
            match self.selected_range() {
                Some((_, b)) => {
                    return self.place_caret(b, false);
                },
                None => {},
            }
        }
        match cursor::grapheme_end_after(self.active_text(), self.caret) {
            Some(at) => self.place_caret(at, extend),
            None => self.place_caret(self.caret, extend),
        }
    }

    pub fn caret_word_left(&mut self, extend: bool) -> (changed: bool)
        ensures
            final(self)@ == old(self)@.clamped().caret_placed(
                cursor::word_start(old(self)@.active_text(), old(self)@.clamped().caret as int),
                extend,
            ),
            changed == (final(self)@ != old(self)@.clamped()),
            old(self)@.anchor_ok() ==> final(self)@.text_ok(),
    {
        self.clamp_caret();
        let at: usize = cursor::word_start_before(self.active_text(), self.caret);
        self.place_caret(at, extend)
    }

    pub fn caret_word_right(&mut self, extend: bool) -> (changed: bool)
        ensures
            final(self)@ == old(self)@.clamped().caret_placed(
                cursor::word_end(old(self)@.active_text(), old(self)@.clamped().caret as int),
                extend,
            ),
            changed == (final(self)@ != old(self)@.clamped()),
            old(self)@.anchor_ok() ==> final(self)@.text_ok(),
    {
        self.clamp_caret();
        let at: usize = cursor::word_end_after(self.active_text(), self.caret);
        self.place_caret(at, extend)
    }

    /// Put the caret at a byte offset that came from outside — the shaper's
    /// answer to "which glyph did that click land on". It reports glyph starts,
    /// which inside a flag or an accented cluster is not a place a caret may
    /// sit, so snap back to the start of the cluster it fell into.
    pub fn set_caret(&mut self, at: usize) -> (changed: bool)
        ensures
            final(self)@ == old(self)@.caret_placed(old(self)@.snapped(at as int), false),
            changed == (final(self)@ != old(self)@),
            final(self)@.text_ok(),
    {
        let at: usize = self.snap_offset(at);
        self.place_caret(at, false)
    }

    /// The same, but dragging the selection along — a press-and-drag through
    /// the text rather than a click in it.
    pub fn extend_caret_to(&mut self, at: usize) -> (changed: bool)
        ensures
            final(self)@ == old(self)@.caret_placed(old(self)@.snapped(at as int), true),
            changed == (final(self)@ != old(self)@),
            old(self)@.text_ok() ==> final(self)@.text_ok(),
    {
        let at: usize = self.snap_offset(at);
        self.place_caret(at, true)
    }

    fn snap_offset(&self, at: usize) -> (r: usize)
        ensures
            r == self@.snapped(at as int),
            text::boundary(self@.active_bytes(), r as int),
    {
        let text = self.active_text();
        let n: usize = text.as_bytes().len();
        if at >= n {
            n
        } else {
            cursor::grapheme_start_at_or_before(text, at)
        }
    }

    /// Byte offset of the start of the line that `at` is on — just past the
    /// previous hard break, or 0.
    fn line_start(&self, at: usize) -> (r: usize)
        ensures
            r == model::line_start_of(
                self@.active_bytes(),
                within(at as int, self@.active_bytes()),
            ),
            r <= at,
    {
        let t = self.active_text();
        let b = t.as_bytes();
        let n: usize = b.len();
        let start: usize = if at <= n {
            at
        } else {
            n
        };
        let mut k: usize = start;
        while k > 0
            invariant
                b@ == self@.active_bytes(),
                start == within(at as int, b@),
                k <= start,
                start <= b@.len(),
                start <= at,
                model::line_start_of(b@, start as int) == model::line_start_of(b@, k as int),
            decreases k,
        {
            if b[k - 1] == ascii::NEWLINE {
                return k;
            }
            k = k - 1;
        }
        0
    }

    /// Byte offset of the end of the line that `at` is on — the next hard break,
    /// or the end of the text.
    fn line_end(&self, at: usize) -> (r: usize)
        ensures
            r == model::line_end_of(self@.active_bytes(), within(at as int, self@.active_bytes())),
            r <= self@.active_bytes().len(),
    {
        let t = self.active_text();
        let b = t.as_bytes();
        let n: usize = b.len();
        let start: usize = if at <= n {
            at
        } else {
            n
        };
        let mut k: usize = start;
        while k < n
            invariant
                b@ == self@.active_bytes(),
                start == within(at as int, b@),
                start <= k <= n,
                n == b@.len(),
                model::line_end_of(b@, start as int) == model::line_end_of(b@, k as int),
            decreases n - k,
        {
            if b[k] == ascii::NEWLINE {
                return k;
            }
            k = k + 1;
        }
        n
    }

    pub fn caret_home(&mut self, extend: bool) -> (changed: bool)
        ensures
            final(self)@ == old(self)@.moved_home(extend),
            changed == (final(self)@ != old(self)@),
            old(self)@.text_ok() ==> final(self)@.text_ok(),
    {
        let at: usize = self.line_start(self.caret);
        proof {
            let b = self@.active_bytes();
            encode_utf8_valid_utf8(self@.active_text());
            if self@.caret_ok() {
                lemma_line_start(b, self@.caret as int);
            }
        }
        self.place_caret(at, extend)
    }

    pub fn caret_end(&mut self, extend: bool) -> (changed: bool)
        ensures
            final(self)@ == old(self)@.moved_end(extend),
            changed == (final(self)@ != old(self)@),
            old(self)@.text_ok() ==> final(self)@.text_ok(),
    {
        let at: usize = self.line_end(self.caret);
        proof {
            encode_utf8_valid_utf8(self@.active_text());
            lemma_line_end(self@.active_bytes(), within(self@.caret as int, self@.active_bytes()));
        }
        self.place_caret(at, extend)
    }

    /// Move the caret to the line above, keeping roughly the same column. On the
    /// first line there is nowhere up to go, so it lands at the very start.
    pub fn caret_up(&mut self, extend: bool) -> (changed: bool)
        ensures
            final(self)@ == old(self)@.moved_up(extend),
            changed == (final(self)@ != old(self)@.clamped()),
            old(self)@.text_ok() ==> final(self)@.text_ok(),
    {
        self.clamp_caret();
        let ls: usize = self.line_start(self.caret);
        if ls == 0 {
            return self.caret_home(extend);
        }
        proof {
            lemma_line_start_found(self@.active_bytes(), ls - 1);
        }
        let col: usize = self.caret - ls;
        // The line break that ends the previous line.
        let prev_end: usize = ls - 1;
        let prev_start: usize = self.line_start(prev_end);
        let wanted: usize = prev_start + col;
        let target: usize = self.snap_offset(
            if wanted < prev_end {
                wanted
            } else {
                prev_end
            },
        );
        self.place_caret(target, extend)
    }

    /// Move the caret to the line below, keeping roughly the same column. On the
    /// last line there is nowhere down to go, so it lands at the very end.
    pub fn caret_down(&mut self, extend: bool) -> (changed: bool)
        ensures
            final(self)@ == old(self)@.moved_down(extend),
            changed == (final(self)@ != old(self)@.clamped()),
            old(self)@.text_ok() ==> final(self)@.text_ok(),
    {
        self.clamp_caret();
        let le: usize = self.line_end(self.caret);
        let n: usize = self.active_text().as_bytes().len();
        if le == n {
            return self.caret_end(extend);
        }
        let ls: usize = self.line_start(self.caret);
        let col: usize = self.caret - ls;
        let next_start: usize = le + 1;
        proof {
            encode_utf8_valid_utf8(self@.active_text());
            lemma_line_end(self@.active_bytes(), le + 1);
        }
        let next_end: usize = self.line_end(next_start);
        let target: usize = self.snap_offset(
            if col < next_end - next_start {
                next_start + col
            } else {
                next_end
            },
        );
        self.place_caret(target, extend)
    }
}

} // verus!
