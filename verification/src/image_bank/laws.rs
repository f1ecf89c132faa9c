//! What holds of a bank: nothing that may be on screen is dropped, and what is
//! kept fits as far as that allows.

use vstd::prelude::*;
use crate::image_bank;
use crate::image_bank::{BankModel, Entry, Resolved, BUDGET};
use crate::paths;

verus! {

/// The coldest image is one of the slots, it is cold, and none that is cold was
/// asked for longer ago.
pub proof fn lemma_coldest(slots: Seq<(Seq<char>, Entry)>, cutoff: u64)
    ensures
        ({
            let k = image_bank::coldest(slots, cutoff);
            &&& k < slots.len()
            &&& k >= 0 ==> image_bank::cold(slots[k].1, cutoff)
            &&& forall|i: int|
                0 <= i < slots.len() && image_bank::cold(#[trigger] slots[i].1, cutoff) ==> k >= 0
                    && image_bank::last_used(slots[k].1) <= image_bank::last_used(slots[i].1)
        }),
    decreases slots.len(),
{
    if slots.len() > 0 {
        let rest = slots.drop_last();
        lemma_coldest(rest, cutoff);
        let k = image_bank::coldest(slots, cutoff);
        assert forall|i: int|
            0 <= i < slots.len() && image_bank::cold(#[trigger] slots[i].1, cutoff) implies k >= 0
            && image_bank::last_used(slots[k].1) <= image_bank::last_used(slots[i].1) by {
            if i < rest.len() {
                assert(rest[i] == slots[i]);
            }
        }
    }
}

/// Where the slot of a path is, from what is before it.
pub proof fn lemma_slot_at(slots: Seq<(Seq<char>, Entry)>, path: Seq<char>, i: int)
    requires
        0 <= i <= slots.len(),
        forall|j: int| 0 <= j < i ==> !paths::same_path(#[trigger] slots[j].0, path),
        i < slots.len() ==> paths::same_path(slots[i].0, path),
    ensures
        image_bank::slot_of(slots, path) == i,
    decreases slots.len(),
{
    if slots.len() > 0 && i > 0 {
        assert(!paths::same_path(slots[0].0, path));
        let rest = slots.skip(1);
        assert forall|j: int| 0 <= j < i - 1 implies !paths::same_path(
            #[trigger] rest[j].0,
            path,
        ) by {
            assert(rest[j] == slots[j + 1]);
        }
        if i < slots.len() {
            assert(rest[i - 1] == slots[i]);
        }
        lemma_slot_at(rest, path, i - 1);
    }
}

/// The slot of a path is of that path, and what is before it is not.
pub proof fn lemma_slot(slots: Seq<(Seq<char>, Entry)>, path: Seq<char>)
    ensures
        ({
            let i = image_bank::slot_of(slots, path);
            &&& 0 <= i <= slots.len()
            &&& forall|j: int| 0 <= j < i ==> !paths::same_path(#[trigger] slots[j].0, path)
            &&& i < slots.len() ==> paths::same_path(slots[i].0, path)
        }),
    decreases slots.len(),
{
    if slots.len() > 0 && !paths::same_path(slots[0].0, path) {
        let rest = slots.skip(1);
        lemma_slot(rest, path);
        let i = image_bank::slot_of(slots, path);
        assert forall|j: int| 0 <= j < i implies !paths::same_path(#[trigger] slots[j].0, path) by {
            if j > 0 {
                assert(rest[j - 1] == slots[j]);
            }
        }
        if i < slots.len() {
            assert(rest[i - 1] == slots[i]);
        }
    }
}

/// Putting an entry keeps one slot to a path.
pub proof fn lemma_put(slots: Seq<(Seq<char>, Entry)>, path: Seq<char>, entry: Entry)
    requires
        image_bank::distinct(slots),
    ensures
        image_bank::distinct(image_bank::put(slots, path, entry)),
{
    lemma_slot(slots, path);
    let after = image_bank::put(slots, path, entry);
    assert forall|i: int, j: int| 0 <= i < j < after.len() implies !paths::same_path(
        #[trigger] after[i].0,
        #[trigger] after[j].0,
    ) by {
        if j < slots.len() {
            assert(after[i].0 == slots[i].0 && after[j].0 == slots[j].0);
        } else {
            assert(after[i].0 == slots[i].0);
        }
    }
}

/// What an update adds and takes.
pub proof fn lemma_update(slots: Seq<(Seq<char>, Entry)>, i: int, slot: (Seq<char>, Entry))
    requires
        0 <= i < slots.len(),
    ensures
        image_bank::held(slots.update(i, slot)) + image_bank::cost(slots[i].1) == image_bank::held(
            slots,
        ) + image_bank::cost(slot.1),
    decreases slots.len(),
{
    let after = slots.update(i, slot);
    if i == slots.len() - 1 {
        assert(after.drop_last() =~= slots.drop_last());
    } else {
        lemma_update(slots.drop_last(), i, slot);
        assert(after.drop_last() =~= slots.drop_last().update(i, slot));
    }
}

/// One slot costs no more than all.
pub proof fn lemma_cost(slots: Seq<(Seq<char>, Entry)>, i: int)
    requires
        0 <= i < slots.len(),
    ensures
        image_bank::cost(slots[i].1) <= image_bank::held(slots),
    decreases slots.len(),
{
    if i < slots.len() - 1 {
        lemma_cost(slots.drop_last(), i);
    }
}

/// What putting an entry costs, where nothing was resident.
pub proof fn lemma_put_cost(slots: Seq<(Seq<char>, Entry)>, path: Seq<char>, entry: Entry)
    requires
        !(image_bank::entry_of(slots, path) matches Some(Entry::Ready { .. })),
    ensures
        image_bank::held(image_bank::put(slots, path, entry)) == image_bank::held(slots)
            + image_bank::cost(entry),
{
    lemma_slot(slots, path);
    let i = image_bank::slot_of(slots, path);
    if i < slots.len() {
        lemma_update(slots, i, (slots[i].0, entry));
    } else {
        assert(slots.push((path, entry)).drop_last() =~= slots);
    }
}

/// What dropping a slot takes, and that it keeps one slot to a path.
pub proof fn lemma_remove(slots: Seq<(Seq<char>, Entry)>, i: int)
    requires
        0 <= i < slots.len(),
    ensures
        image_bank::held(slots.remove(i)) + image_bank::cost(slots[i].1) == image_bank::held(slots),
        image_bank::distinct(slots) ==> image_bank::distinct(slots.remove(i)),
    decreases slots.len(),
{
    let after = slots.remove(i);
    if i == slots.len() - 1 {
        assert(after =~= slots.drop_last());
    } else {
        lemma_remove(slots.drop_last(), i);
        assert(after.drop_last() =~= slots.drop_last().remove(i));
        assert(after.last() == slots.last());
    }
    if image_bank::distinct(slots) {
        assert forall|a: int, b: int| 0 <= a < b < after.len() implies !paths::same_path(
            #[trigger] after[a].0,
            #[trigger] after[b].0,
        ) by {
            let x = if a < i {
                a
            } else {
                a + 1
            };
            let y = if b < i {
                b
            } else {
                b + 1
            };
            assert(after[a] == slots[x] && after[b] == slots[y]);
        }
    }
}

/// The first finished decodes cost no more than all.
pub proof fn lemma_landing(landed: Seq<(Seq<char>, Option<usize>)>, i: int)
    requires
        0 <= i <= landed.len(),
    ensures
        image_bank::landing(landed.take(i)) <= image_bank::landing(landed),
    decreases landed.len(),
{
    if i < landed.len() {
        lemma_landing(landed.drop_last(), i);
        assert(landed.drop_last().take(i) =~= landed.take(i));
    } else {
        assert(landed.take(i) =~= landed);
    }
}

/// Making room keeps every image that is not cold: nothing that the last frame
/// asked for, nothing that is being decoded, and no failure.
pub proof fn nothing_warm_is_dropped(
    slots: Seq<(Seq<char>, Entry)>,
    cutoff: u64,
    slot: (Seq<char>, Entry),
)
    requires
        slots.contains(slot),
        !image_bank::cold(slot.1, cutoff),
    ensures
        image_bank::trimmed(slots, cutoff).contains(slot),
    decreases slots.len(),
{
    lemma_coldest(slots, cutoff);
    let k = image_bank::coldest(slots, cutoff);
    if image_bank::held(slots) > BUDGET && k >= 0 {
        let i = choose|i: int| 0 <= i < slots.len() && slots[i] == slot;
        let rest = slots.remove(k);
        let j = if i < k {
            i
        } else {
            i - 1
        };
        assert(rest[j] == slot);
        nothing_warm_is_dropped(rest, cutoff, slot);
    }
}

/// After making room either what is left fits, or nothing of it is cold.
pub proof fn room_is_made(slots: Seq<(Seq<char>, Entry)>, cutoff: u64)
    ensures
        image_bank::held(image_bank::trimmed(slots, cutoff)) <= BUDGET || (forall|i: int|
            0 <= i < image_bank::trimmed(slots, cutoff).len() ==> !image_bank::cold(
                (#[trigger] image_bank::trimmed(slots, cutoff)[i]).1,
                cutoff,
            )),
    decreases slots.len(),
{
    lemma_coldest(slots, cutoff);
    let k = image_bank::coldest(slots, cutoff);
    if image_bank::held(slots) > BUDGET && k >= 0 {
        room_is_made(slots.remove(k), cutoff);
    }
}

/// What fits is left alone.
pub proof fn what_fits_stays(slots: Seq<(Seq<char>, Entry)>, cutoff: u64)
    requires
        image_bank::held(slots) <= BUDGET,
    ensures
        image_bank::trimmed(slots, cutoff) == slots,
        image_bank::dropped(slots, cutoff).len() == 0,
{
}

/// A decode that is in flight, or that failed, is not started again: only a path
/// that the bank does not know is.
pub proof fn a_decode_is_started_once(
    b: BankModel,
    path: Seq<char>,
    landed: Option<Option<usize>>,
    again: Option<Option<usize>>,
)
    ensures
        b.asked(path, landed).0.asked(path, again).1 != (image_bank::Resolved::Loading {
            start: true,
        }),
{
    lemma_slot(b.slots, path);
    let after = b.asked(path, landed).0.slots;
    let i = image_bank::slot_of(b.slots, path);
    assert forall|j: int| 0 <= j < i implies !paths::same_path(#[trigger] after[j].0, path) by {
        assert(after[j].0 == b.slots[j].0);
    }
    lemma_slot_at(after, path, i);
}

/// What is put under a path is found under it, however the path is written, and what is
/// under another path stays.
pub proof fn what_is_put_is_found(
    slots: Seq<(Seq<char>, Entry)>,
    path: Seq<char>,
    other: Seq<char>,
    entry: Entry,
)
    ensures
        paths::same_path(path, other) ==> image_bank::entry_of(
            image_bank::put(slots, path, entry),
            other,
        ) == Some(entry),
        !paths::same_path(path, other) ==> image_bank::entry_of(
            image_bank::put(slots, path, entry),
            other,
        ) == image_bank::entry_of(slots, other),
{
    let after = image_bank::put(slots, path, entry);
    lemma_slot(slots, path);
    lemma_slot(slots, other);
    let i = image_bank::slot_of(slots, path);
    let j = image_bank::slot_of(slots, other);
    if paths::same_path(path, other) {
        assert forall|k: int| 0 <= k < i implies !paths::same_path(#[trigger] after[k].0, other) by {
            assert(after[k] == slots[k]);
        }
        lemma_slot_at(after, other, i);
    } else if j < slots.len() {
        assert forall|k: int| 0 <= k < j implies !paths::same_path(#[trigger] after[k].0, other) by {
            assert(after[k].0 == slots[k].0);
        }
        assert(after[j].0 == slots[j].0);
        lemma_slot_at(after, other, j);
        assert(i != j);
    } else {
        assert forall|k: int| 0 <= k < after.len() implies !paths::same_path(
            #[trigger] after[k].0,
            other,
        ) by {
            if k < slots.len() {
                assert(after[k].0 == slots[k].0);
            }
        }
        lemma_slot_at(after, other, after.len() as int);
    }
}

/// A decode that has landed is told of when its image is asked for: it is ready and counts
/// as used in this frame, or it has failed.
pub proof fn a_landed_image_is_ready(b: BankModel, path: Seq<char>, used: u64, bytes: usize)
    requires
        image_bank::entry_of(b.slots, path) == Some(Entry::Loading { used }),
    ensures
        b.asked(path, Some(Some(bytes))).1 == Resolved::Ready,
        image_bank::entry_of(b.asked(path, Some(Some(bytes))).0.slots, path) == Some(
            Entry::Ready { bytes, used: b.frame },
        ),
        b.asked(path, Some(None)).1 == Resolved::Missing,
        image_bank::entry_of(b.asked(path, Some(None)).0.slots, path) == Some(Entry::Failed),
{
    what_is_put_is_found(b.slots, path, path, Entry::Ready { bytes, used: b.frame });
    what_is_put_is_found(b.slots, path, path, Entry::Failed);
}

/// An image that is asked for counts as used in this frame, so that it is not cold, and a
/// path that nothing is known of begins to load. What failed stays failed. No other path
/// is touched.
pub proof fn asking_keeps_an_image_warm(
    b: BankModel,
    path: Seq<char>,
    other: Seq<char>,
    bytes: usize,
    used: u64,
)
    ensures
        ({
            let after = b.asked(path, None).0;
            let was = image_bank::entry_of(b.slots, path);
            let now = image_bank::entry_of(after.slots, path);
            &&& was == Some(Entry::Ready { bytes, used }) ==> now == Some(
                Entry::Ready { bytes, used: b.frame },
            ) && b.asked(path, None).1 == Resolved::Ready
            &&& was is None ==> now == Some(Entry::Loading { used: b.frame }) && b.asked(path, None).1
                == (Resolved::Loading { start: true })
            &&& was == Some(Entry::Loading { used }) ==> now == Some(
                Entry::Loading { used: b.frame },
            ) && b.asked(path, None).1 == (Resolved::Loading { start: false })
            &&& was == Some(Entry::Failed) ==> after == b && b.asked(path, None).1
                == Resolved::Missing
            &&& !paths::same_path(path, other) ==> image_bank::entry_of(after.slots, other)
                == image_bank::entry_of(b.slots, other)
            &&& after.frame == b.frame
        }),
{
    what_is_put_is_found(b.slots, path, path, Entry::Loading { used: b.frame });
    what_is_put_is_found(b.slots, path, path, Entry::Ready { bytes, used: b.frame });
    what_is_put_is_found(b.slots, path, other, Entry::Loading { used: b.frame });
    if let Some(Entry::Ready { bytes: held, .. }) = image_bank::entry_of(b.slots, path) {
        what_is_put_is_found(b.slots, path, other, Entry::Ready { bytes: held, used: b.frame });
    }
}

/// An image stays warm through the frame after the one that asked for it, and is cold from
/// the second on. What is being decoded and what failed is never cold.
pub proof fn an_image_cools_after_a_frame(bytes: usize, used: u64, frame: u64)
    requires
        frame >= 2,
    ensures
        image_bank::cold(Entry::Ready { bytes, used }, image_bank::cutoff_of(frame)) <==> used + 2
            <= frame,
        !image_bank::cold(Entry::Loading { used }, image_bank::cutoff_of(frame)),
        !image_bank::cold(Entry::Failed, image_bank::cutoff_of(frame)),
{
}

/// What finished is collected once: it is ready or has failed where it was being decoded,
/// and is let go where it was not.
pub proof fn what_finished_is_collected(b: BankModel, path: Seq<char>, decoded: Option<usize>)
    ensures
        ({
            let after = b.collected(seq![(path, decoded)]);
            let now = image_bank::entry_of(after.slots, path);
            &&& image_bank::entry_of(b.slots, path) matches Some(Entry::Loading { .. }) ==> (
            match decoded {
                Some(bytes) => now == Some(Entry::Ready { bytes, used: b.frame }),
                None => now == Some(Entry::Failed),
            })
            &&& !(image_bank::entry_of(b.slots, path) matches Some(Entry::Loading { .. })) ==> after
                == b
        }),
{
    let one = seq![(path, decoded)];
    assert(one.drop_last() =~= seq![]);
    assert(b.collected(one.drop_last()) == b);
    assert(one.last() == (path, decoded));
    if let Some(bytes) = decoded {
        what_is_put_is_found(b.slots, path, path, Entry::Ready { bytes, used: b.frame });
    }
    what_is_put_is_found(b.slots, path, path, Entry::Failed);
}

} // verus!
