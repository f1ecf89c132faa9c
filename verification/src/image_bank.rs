//! Decoded images, and how many of them are allowed to be resident.
//!
//! Eviction happens between frames, never during one: an image that the last
//! frame asked for may still be on screen. A decode in flight is remembered, so
//! that it is not started again, and so is one that failed.

use vstd::prelude::*;
use crate::paths;

pub mod decode;
pub mod laws;

verus! {

/// The longest edge anything is kept at, in pixels.
pub const MAX_EDGE: u32 = 3072;

/// How much decoded image is allowed to be resident, in bytes: 64 MiB.
pub const BUDGET: usize = 67108864;

/// What is known of one image.
#[derive(Clone, Copy, Debug, PartialEq, Eq)]
pub enum Entry {
    /// Being decoded, and last asked for in frame `used`.
    Loading { used: u64 },
    /// Decoded, at a cost of `bytes`, and last asked for in frame `used`.
    Ready { bytes: usize, used: u64 },
    /// Missing, unreadable, or not an image.
    Failed,
}

/// What the bank can say about one image, this frame.
#[derive(Clone, Copy, Debug, PartialEq, Eq)]
pub enum Resolved {
    /// Being decoded; the decode is to be started if it has not been.
    Loading { start: bool },
    Ready,
    /// Not there, or not readable.
    Missing,
}

/// The place of one image in the bank.
pub struct Slot {
    pub path: String,
    pub entry: Entry,
}

/// Decoded images, bounded.
pub struct Bank {
    slots: Vec<Slot>,
    resident: usize,
    frame: u64,
}

/// What a bank holds, and the number of the frame.
#[verifier::ext_equal]
pub struct BankModel {
    pub slots: Seq<(Seq<char>, Entry)>,
    pub frame: u64,
}

/// The slots by the characters of their paths.
pub open spec fn views(slots: Seq<Slot>) -> Seq<(Seq<char>, Entry)> {
    slots.map_values(|s: Slot| (s.path@, s.entry))
}

impl View for Bank {
    type V = BankModel;

    closed spec fn view(&self) -> BankModel {
        BankModel { slots: views(self.slots@), frame: self.frame }
    }
}

/// What an entry costs.
pub open spec fn cost(entry: Entry) -> nat {
    match entry {
        Entry::Ready { bytes, .. } => bytes as nat,
        _ => 0,
    }
}

/// What some slots cost together.
pub open spec fn held(slots: Seq<(Seq<char>, Entry)>) -> nat
    decreases slots.len(),
{
    if slots.len() == 0 {
        0
    } else {
        held(slots.drop_last()) + cost(slots.last().1)
    }
}

/// Where the slot of `path` is; past the end if there is none.
pub open spec fn slot_of(slots: Seq<(Seq<char>, Entry)>, path: Seq<char>) -> int
    decreases slots.len(),
{
    if slots.len() == 0 || paths::same_path(slots[0].0, path) {
        0
    } else {
        1 + slot_of(slots.skip(1), path)
    }
}

/// No two slots of one path.
pub open spec fn distinct(slots: Seq<(Seq<char>, Entry)>) -> bool {
    forall|i: int, j: int|
        0 <= i < j < slots.len() ==> !paths::same_path(
            #[trigger] slots[i].0,
            #[trigger] slots[j].0,
        )
}

/// The slots with `entry` for `path`.
pub open spec fn put(
    slots: Seq<(Seq<char>, Entry)>,
    path: Seq<char>,
    entry: Entry,
) -> Seq<(Seq<char>, Entry)> {
    let i = slot_of(slots, path);
    if i < slots.len() {
        slots.update(i, (slots[i].0, entry))
    } else {
        slots.push((path, entry))
    }
}

/// The entry of a path, if it has one.
pub open spec fn entry_of(slots: Seq<(Seq<char>, Entry)>, path: Seq<char>) -> Option<Entry> {
    let i = slot_of(slots, path);
    if i < slots.len() {
        Some(slots[i].1)
    } else {
        None
    }
}

/// What a decode that finished leaves: an image and its cost, or a failure.
pub open spec fn outcome(decoded: Option<usize>, frame: u64) -> (Entry, Resolved) {
    match decoded {
        Some(bytes) => (Entry::Ready { bytes, used: frame }, Resolved::Ready),
        None => (Entry::Failed, Resolved::Missing),
    }
}

impl BankModel {
    /// The bank with the outcome of a decode.
    pub open spec fn stored(self, path: Seq<char>, decoded: Option<usize>) -> BankModel {
        BankModel { slots: put(self.slots, path, outcome(decoded, self.frame).0), ..self }
    }

    /// What asking for `path` does, and the answer. `landed` is what its decode
    /// came to, if it has finished.
    pub open spec fn asked(self, path: Seq<char>, landed: Option<Option<usize>>) -> (
        BankModel,
        Resolved,
    ) {
        match entry_of(self.slots, path) {
            Some(Entry::Ready { bytes, .. }) => (
                BankModel {
                    slots: put(self.slots, path, Entry::Ready { bytes, used: self.frame }),
                    ..self
                },
                Resolved::Ready,
            ),
            Some(Entry::Failed) => (self, Resolved::Missing),
            Some(Entry::Loading { .. }) => match landed {
                Some(decoded) => (
                    self.stored(path, decoded),
                    outcome(decoded, self.frame).1,
                ),
                None => (
                    BankModel {
                        slots: put(self.slots, path, Entry::Loading { used: self.frame }),
                        ..self
                    },
                    Resolved::Loading { start: false },
                ),
            },
            None => (
                BankModel {
                    slots: put(self.slots, path, Entry::Loading { used: self.frame }),
                    ..self
                },
                Resolved::Loading { start: true },
            ),
        }
    }

    /// The bank with what has finished decoding. What is not being decoded is
    /// left alone.
    pub open spec fn collected(self, landed: Seq<(Seq<char>, Option<usize>)>) -> BankModel
        decreases landed.len(),
    {
        if landed.len() == 0 {
            self
        } else {
            let b = self.collected(landed.drop_last());
            let (path, decoded) = landed.last();
            if entry_of(b.slots, path) matches Some(Entry::Loading { .. }) {
                b.stored(path, decoded)
            } else {
                b
            }
        }
    }
}

/// An image that has not been asked for since the frame `cutoff`.
pub open spec fn cold(entry: Entry, cutoff: u64) -> bool {
    entry matches Entry::Ready { used, .. } && used <= cutoff
}

/// The frame that an image was last asked for in.
pub open spec fn last_used(entry: Entry) -> u64 {
    match entry {
        Entry::Ready { used, .. } => used,
        Entry::Loading { used } => used,
        Entry::Failed => 0,
    }
}

/// Where the cold image is that was asked for the longest ago; below the
/// beginning if none is cold.
pub open spec fn coldest(slots: Seq<(Seq<char>, Entry)>, cutoff: u64) -> int
    decreases slots.len(),
{
    if slots.len() == 0 {
        -1
    } else {
        let k = coldest(slots.drop_last(), cutoff);
        if cold(slots.last().1, cutoff) && (k < 0 || last_used(slots.last().1) < last_used(
            slots[k].1,
        )) {
            slots.len() - 1
        } else {
            k
        }
    }
}

/// What stays: cold images go, the one asked for the longest ago first, until
/// the rest fits or no image is cold.
pub open spec fn trimmed(slots: Seq<(Seq<char>, Entry)>, cutoff: u64) -> Seq<(Seq<char>, Entry)>
    decreases slots.len(),
    via trimmed_shrinks
{
    let k = coldest(slots, cutoff);
    if held(slots) <= BUDGET || k < 0 {
        slots
    } else {
        trimmed(slots.remove(k), cutoff)
    }
}

#[via_fn]
proof fn trimmed_shrinks(slots: Seq<(Seq<char>, Entry)>, cutoff: u64) {
    laws::lemma_coldest(slots, cutoff);
}

/// What goes, in the order in which it goes.
pub open spec fn dropped(slots: Seq<(Seq<char>, Entry)>, cutoff: u64) -> Seq<Seq<char>>
    decreases slots.len(),
    via dropped_shrinks
{
    let k = coldest(slots, cutoff);
    if held(slots) <= BUDGET || k < 0 {
        seq![]
    } else {
        seq![slots[k].0] + dropped(slots.remove(k), cutoff)
    }
}

#[via_fn]
proof fn dropped_shrinks(slots: Seq<(Seq<char>, Entry)>, cutoff: u64) {
    laws::lemma_coldest(slots, cutoff);
}

/// The last frame that an image may have been asked for in and still be cold.
pub open spec fn cutoff_of(frame: u64) -> u64 {
    if frame >= 2 {
        (frame - 2) as u64
    } else {
        0
    }
}

/// What finished decodes cost together.
pub open spec fn landing(landed: Seq<(Seq<char>, Option<usize>)>) -> nat
    decreases landed.len(),
{
    if landed.len() == 0 {
        0
    } else {
        landing(landed.drop_last()) + match landed.last().1 {
            Some(bytes) => bytes as nat,
            None => 0,
        }
    }
}

/// Finished decodes by the characters of their paths.
pub open spec fn landed_views(landed: Seq<(String, Option<usize>)>) -> Seq<
    (Seq<char>, Option<usize>),
> {
    landed.map_values(|l: (String, Option<usize>)| (l.0@, l.1))
}

impl Bank {
    /// The total is the sum of what is held, and every path has one slot at most.
    pub closed spec fn sound(self) -> bool {
        &&& self.resident == held(views(self.slots@))
        &&& distinct(views(self.slots@))
    }

    /// Every path has one slot at most, and the total can be counted.
    pub proof fn every_path_has_one_slot(self)
        requires
            self.sound(),
        ensures
            distinct(self@.slots),
            held(self@.slots) <= usize::MAX,
    {
    }

    pub fn new() -> (r: Bank)
        ensures
            r.sound(),
            r@ == (BankModel { slots: seq![], frame: 0 }),
    {
        let r = Bank { slots: Vec::new(), resident: 0, frame: 0 };
        assert(views(r.slots@) =~= seq![]);
        r
    }

    /// How much decoded image is resident.
    pub fn resident_bytes(&self) -> (r: usize)
        requires
            self.sound(),
        ensures
            r == held(self@.slots),
    {
        self.resident
    }

    fn find(&self, path: &str) -> (r: usize)
        ensures
            r == slot_of(views(self.slots@), path@),
            r <= self.slots@.len(),
    {
        let n: usize = self.slots.len();
        let mut i: usize = 0;
        let ghost s = views(self.slots@);
        while i < n
            invariant
                i <= n,
                n == self.slots@.len(),
                s == views(self.slots@),
                forall|j: int| 0 <= j < i ==> !paths::same_path(#[trigger] s[j].0, path@),
            decreases n - i,
        {
            if paths::is_same(self.slots[i].path.as_str(), path) {
                proof {
                    laws::lemma_slot_at(s, path@, i as int);
                }
                return i;
            }
            i = i + 1;
        }
        proof {
            laws::lemma_slot_at(s, path@, n as int);
        }
        n
    }

    fn set(&mut self, path: &str, entry: Entry)
        requires
            old(self).sound(),
            held(put(old(self)@.slots, path@, entry)) <= usize::MAX,
        ensures
            final(self).sound(),
            final(self)@ == (BankModel {
                slots: put(old(self)@.slots, path@, entry),
                ..old(self)@
            }),
    {
        let i: usize = self.find(path);
        let ghost before = views(self.slots@);
        proof {
            laws::lemma_put(before, path@, entry);
        }
        let more: usize = match entry {
            Entry::Ready { bytes, .. } => bytes,
            _ => 0,
        };
        if i < self.slots.len() {
            let less: usize = match self.slots[i].entry {
                Entry::Ready { bytes, .. } => bytes,
                _ => 0,
            };
            proof {
                laws::lemma_update(before, i as int, (before[i as int].0, entry));
                laws::lemma_cost(before, i as int);
            }
            let slot = Slot { path: self.slots[i].path.clone(), entry };
            self.slots.set(i, slot);
            self.resident = self.resident - less + more;
            assert(views(self.slots@) =~= put(before, path@, entry));
        } else {
            assert(before.push((path@, entry)).drop_last() =~= before);
            self.slots.push(Slot { path: path.to_owned(), entry });
            self.resident = self.resident + more;
            assert(views(self.slots@) =~= put(before, path@, entry));
        }
    }

    /// Remembers what a decode came to: an image that costs so many bytes, or a
    /// failure.
    pub fn store(&mut self, path: &str, decoded: Option<usize>) -> (r: Resolved)
        requires
            old(self).sound(),
            !(entry_of(old(self)@.slots, path@) matches Some(Entry::Ready { .. })),
            held(old(self)@.slots) + (match decoded {
                Some(bytes) => bytes as nat,
                None => 0,
            }) <= usize::MAX,
        ensures
            final(self).sound(),
            final(self)@ == old(self)@.stored(path@, decoded),
            r == outcome(decoded, old(self)@.frame).1,
            held(final(self)@.slots) == held(old(self)@.slots) + (match decoded {
                Some(bytes) => bytes as nat,
                None => 0,
            }),
    {
        let ghost slots = self@.slots;
        match decoded {
            Some(bytes) => {
                let entry = Entry::Ready { bytes, used: self.frame };
                proof {
                    laws::lemma_put_cost(slots, path@, entry);
                }
                self.set(path, entry);
                Resolved::Ready
            },
            None => {
                proof {
                    laws::lemma_put_cost(slots, path@, Entry::Failed);
                }
                self.set(path, Entry::Failed);
                Resolved::Missing
            },
        }
    }

    /// What the caller should draw this frame, and whether it should start a
    /// decode. `landed` is what the decode of `path` came to, if it has finished.
    pub fn get(&mut self, path: &str, landed: Option<Option<usize>>) -> (r: Resolved)
        requires
            old(self).sound(),
            landed matches Some(Some(bytes)) ==> held(old(self)@.slots) + bytes <= usize::MAX,
        ensures
            final(self).sound(),
            final(self)@ == old(self)@.asked(path@, landed).0,
            r == old(self)@.asked(path@, landed).1,
    {
        let ghost slots = self@.slots;
        let i: usize = self.find(path);
        let used: u64 = self.frame;
        if i == self.slots.len() {
            let entry = Entry::Loading { used };
            proof {
                laws::lemma_put_cost(slots, path@, entry);
            }
            self.set(path, entry);
            return Resolved::Loading { start: true };
        }
        match self.slots[i].entry {
            Entry::Ready { bytes, .. } => {
                let entry = Entry::Ready { bytes, used };
                proof {
                    laws::lemma_update(slots, i as int, (slots[i as int].0, entry));
                }
                self.set(path, entry);
                Resolved::Ready
            },
            Entry::Failed => Resolved::Missing,
            Entry::Loading { .. } => match landed {
                Some(decoded) => self.store(path, decoded),
                None => {
                    let entry = Entry::Loading { used };
                    proof {
                        laws::lemma_put_cost(slots, path@, entry);
                    }
                    self.set(path, entry);
                    Resolved::Loading { start: false }
                },
            },
        }
    }

    fn find_coldest(&self, cutoff: u64) -> (r: Option<usize>)
        ensures
            match r {
                Some(k) => k == coldest(views(self.slots@), cutoff),
                None => coldest(views(self.slots@), cutoff) < 0,
            },
    {
        let n: usize = self.slots.len();
        let ghost s = views(self.slots@);
        let mut best: Option<(usize, u64)> = None;
        let mut i: usize = 0;
        assert(s.take(0) =~= seq![]);
        while i < n
            invariant
                i <= n,
                n == self.slots@.len(),
                s == views(self.slots@),
                match best {
                    Some((k, used)) => k == coldest(s.take(i as int), cutoff) && k < i && used
                        == last_used(s[k as int].1),
                    None => coldest(s.take(i as int), cutoff) < 0,
                },
            decreases n - i,
        {
            assert(s.take(i + 1).drop_last() =~= s.take(i as int));
            assert(s.take(i + 1).last() == s[i as int]);
            if let Entry::Ready { used, .. } = self.slots[i].entry {
                let better = match best {
                    Some((_, least)) => used < least,
                    None => true,
                };
                if used <= cutoff && better {
                    best = Some((i, used));
                }
            }
            i = i + 1;
        }
        assert(s.take(n as int) =~= s);
        match best {
            Some((k, _)) => Some(k),
            None => None,
        }
    }

    /// Opens a frame: takes in what has finished decoding, and makes room if the
    /// last frame left too much resident. Returns what was dropped, in order.
    pub fn begin_frame(&mut self, landed: &Vec<(String, Option<usize>)>) -> (r: Vec<String>)
        requires
            old(self).sound(),
            old(self)@.frame < u64::MAX,
            held(old(self)@.slots) + landing(landed_views(landed@)) <= usize::MAX,
        ensures
            final(self).sound(),
            final(self)@.frame == old(self)@.frame + 1,
            ({
                let b = (BankModel {
                    frame: (old(self)@.frame + 1) as u64,
                    ..old(self)@
                }).collected(landed_views(landed@));
                &&& final(self)@.slots == trimmed(b.slots, cutoff_of(b.frame))
                &&& r@.map_values(|s: String| s@) == dropped(b.slots, cutoff_of(b.frame))
            }),
    {
        self.frame = self.frame + 1;
        let n: usize = landed.len();
        let ghost opened = self@;
        let ghost all = landed_views(landed@);
        let mut i: usize = 0;
        assert(all.take(0) =~= seq![]);
        assert(all.take(n as int) =~= all);
        while i < n
            invariant
                i <= n,
                n == landed@.len(),
                all == landed_views(landed@),
                all.take(n as int) == all,
                self.sound(),
                self@ == opened.collected(all.take(i as int)),
                self@.frame == opened.frame,
                held(self@.slots) + landing(all) <= usize::MAX + landing(all.take(i as int)),
            decreases n - i,
        {
            assert(all.take(i + 1).drop_last() =~= all.take(i as int));
            assert(all.take(i + 1).last() == all[i as int]);
            proof {
                laws::lemma_landing(all, i + 1);
            }
            let at: usize = self.find(landed[i].0.as_str());
            if at < self.slots.len() {
                if let Entry::Loading { .. } = self.slots[at].entry {
                    self.store(landed[i].0.as_str(), landed[i].1);
                }
            }
            i = i + 1;
        }
        let ghost b = self@;
        let cutoff: u64 = if self.frame >= 2 {
            self.frame - 2
        } else {
            0
        };
        let mut gone: Vec<String> = Vec::new();
        let ghost mut out: Seq<Seq<char>> = seq![];
        let mut done = false;
        assert(seq![] + dropped(b.slots, cutoff) =~= dropped(b.slots, cutoff));
        assert(gone@.map_values(|s: String| s@) =~= out);
        while !done
            invariant
                self.sound(),
                self@.frame == b.frame,
                trimmed(self@.slots, cutoff) == trimmed(b.slots, cutoff),
                out + dropped(self@.slots, cutoff) == dropped(b.slots, cutoff),
                gone@.map_values(|s: String| s@) == out,
                done ==> held(self@.slots) <= BUDGET || coldest(self@.slots, cutoff) < 0,
            decreases self.slots@.len() + if done {
                0int
            } else {
                1int
            },
        {
            let ghost s = self@.slots;
            proof {
                laws::lemma_coldest(s, cutoff);
            }
            if self.resident <= BUDGET {
                done = true;
            } else {
                match self.find_coldest(cutoff) {
                    None => {
                        done = true;
                    },
                    Some(k) => {
                        let less: usize = match self.slots[k].entry {
                            Entry::Ready { bytes, .. } => bytes,
                            _ => 0,
                        };
                        proof {
                            laws::lemma_remove(s, k as int);
                        }
                        let ghost was = gone@;
                        let slot = self.slots.remove(k);
                        self.resident = self.resident - less;
                        assert(views(self.slots@) =~= s.remove(k as int));
                        gone.push(slot.path);
                        proof {
                            out = out.push(s[k as int].0);
                            assert(gone@.map_values(|s: String| s@) =~= out);
                            assert(out + dropped(s.remove(k as int), cutoff) =~= out.drop_last()
                                + dropped(s, cutoff));
                            assert(out.drop_last() =~= was.map_values(|s: String| s@));
                        }
                    },
                }
            }
        }
        assert(dropped(self@.slots, cutoff) =~= seq![]);
        assert(out + seq![] =~= out);
        gone
    }
}

} // verus!
