use vstd::prelude::*;
use vstd::math::min;
use crate::cursor::{dir_count, dirs_first, lemma_dirs_first_partitioned, lemma_partitioned_take,
    partitioned};
use crate::entry::EntryV;

verus! {

/// The position of the first entry of `s` structurally equal to `t`, or
/// -1 when no entry of `s` equals `t`.
pub open spec fn first_match(s: Seq<EntryV>, t: EntryV) -> int
    decreases s.len(),
{
    if s.len() == 0 {
        -1
    } else if s[0] == t {
        0
    } else if first_match(s.skip(1), t) < 0 {
        -1
    } else {
        first_match(s.skip(1), t) + 1
    }
}

pub proof fn lemma_first_match_props(s: Seq<EntryV>, t: EntryV)
    ensures
        first_match(s, t) >= 0 ==> {
            &&& first_match(s, t) < s.len()
            &&& s[first_match(s, t)] == t
            &&& forall|j: int| 0 <= j < first_match(s, t) ==> s[j] != t
        },
        first_match(s, t) < 0 ==> forall|j: int| 0 <= j < s.len() ==> s[j] != t,
    decreases s.len(),
{
    if s.len() > 0 && s[0] != t {
        lemma_first_match_props(s.skip(1), t);
        assert forall|j: int| 1 <= j < s.len() implies s.skip(1)[j - 1] == s[j] by {}
    }
}

pub proof fn lemma_first_match_at(s: Seq<EntryV>, t: EntryV, k: int)
    requires
        0 <= k < s.len(),
        s[k] == t,
        forall|j: int| 0 <= j < k ==> s[j] != t,
    ensures
        first_match(s, t) == k,
    decreases k,
{
    if k > 0 {
        assert forall|j: int| 0 <= j < k - 1 implies s.skip(1)[j] != t by {
            assert(s.skip(1)[j] == s[j + 1]);
        }
        assert(s.skip(1)[k - 1] == s[k]);
        lemma_first_match_at(s.skip(1), t, k - 1);
    }
}

pub proof fn lemma_first_match_none(s: Seq<EntryV>, t: EntryV)
    requires
        forall|j: int| 0 <= j < s.len() ==> s[j] != t,
    ensures
        first_match(s, t) == -1,
    decreases s.len(),
{
    if s.len() > 0 {
        assert forall|j: int| 0 <= j < s.len() - 1 implies s.skip(1)[j] != t by {
            assert(s.skip(1)[j] == s[j + 1]);
        }
        lemma_first_match_none(s.skip(1), t);
    }
}

/// The result of one run of the population algorithm.
pub struct Populated {
    pub buffer: Seq<EntryV>,
    pub pending: Seq<EntryV>,
    pub focus: int,
    pub memory: Map<Seq<Seq<char>>, EntryV>,
}

/// A fresh visit: pull up to `height` items and focus the midpoint of
/// the directory group.
pub open spec fn populate_fresh(
    pending: Seq<EntryV>,
    height: int,
    memory: Map<Seq<Seq<char>>, EntryV>,
) -> Populated {
    let n = min(height, pending.len() as int);
    Populated {
        buffer: pending.take(n),
        pending: pending.skip(n),
        focus: dir_count(pending.take(n)) / 2,
        memory,
    }
}

/// The fill procedure: pull further items, appending to the buffer, until
/// it holds `focus + half` entries or the source is exhausted, so that
/// the lower half of the viewport can be filled.
pub open spec fn fill_spec(
    buffer: Seq<EntryV>,
    pending: Seq<EntryV>,
    focus: int,
    half: int,
) -> (Seq<EntryV>, Seq<EntryV>) {
    let need = focus + half - buffer.len();
    if need <= 0 {
        (buffer, pending)
    } else {
        let k = min(need, pending.len() as int);
        (buffer + pending.take(k), pending.skip(k))
    }
}

/// The population algorithm.  With no remembered entry for `path`, a
/// fresh visit.  With one, items are pulled one at a time until one
/// structurally equals the remembered entry; the focus is restored to its
/// position and the fill procedure runs.  When the source is exhausted
/// without a match the remembered entry is stale: it is removed and the
/// whole algorithm re-runs as a fresh visit.
pub open spec fn populate_spec(
    pending: Seq<EntryV>,
    path: Seq<Seq<char>>,
    memory: Map<Seq<Seq<char>>, EntryV>,
    height: int,
    half: int,
) -> Populated {
    if !memory.contains_key(path) {
        populate_fresh(pending, height, memory)
    } else {
        let i = first_match(pending, memory[path]);
        if i >= 0 {
            let filled = fill_spec(pending.take(i + 1), pending.skip(i + 1), i, half);
            Populated { buffer: filled.0, pending: filled.1, focus: i, memory }
        } else {
            populate_fresh(pending, height, memory.remove(path))
        }
    }
}

/// Population splits its source: the buffer followed by what is still
/// pending is exactly the original sequence.
pub proof fn lemma_populate_concat(
    pending: Seq<EntryV>,
    path: Seq<Seq<char>>,
    memory: Map<Seq<Seq<char>>, EntryV>,
    height: int,
    half: int,
)
    requires
        height >= 0,
    ensures
        ({
            let r = populate_spec(pending, path, memory, height, half);
            r.buffer + r.pending == pending
        }),
{
    let r = populate_spec(pending, path, memory, height, half);
    if memory.contains_key(path) && first_match(pending, memory[path]) >= 0 {
        let i = first_match(pending, memory[path]);
        lemma_first_match_props(pending, memory[path]);
        let b0 = pending.take(i + 1);
        let p0 = pending.skip(i + 1);
        let need = i + half - b0.len();
        if need <= 0 {
            assert(r.buffer + r.pending =~= pending);
        } else {
            let k = min(need, p0.len() as int);
            assert(r.buffer == b0 + p0.take(k));
            assert(r.pending == p0.skip(k));
            assert((b0 + p0.take(k)) + p0.skip(k) =~= pending);
        }
    } else {
        assert(r.buffer + r.pending =~= pending);
    }
}

/// For every enumeration of a directory's children, the populated buffer
/// is partitioned: no file entry precedes any directory entry.
pub proof fn lemma_populate_partitioned(
    children: Seq<EntryV>,
    path: Seq<Seq<char>>,
    memory: Map<Seq<Seq<char>>, EntryV>,
    height: int,
    half: int,
)
    requires
        height >= 0,
    ensures
        partitioned(populate_spec(dirs_first(children), path, memory, height, half).buffer),
{
    let pending = dirs_first(children);
    let r = populate_spec(pending, path, memory, height, half);
    lemma_dirs_first_partitioned(children);
    lemma_populate_concat(pending, path, memory, height, half);
    assert(r.buffer =~= (r.buffer + r.pending).take(r.buffer.len() as int));
    lemma_partitioned_take(r.buffer + r.pending, r.buffer.len() as int);
}

/// Stale-memory recovery: when the remembered child for the path no
/// longer occurs among the children, population yields the fresh-visit
/// default (directory-midpoint focus) rather than an error, the stale
/// memory is removed, and an identical re-entry takes the fresh-visit
/// branch again.
pub proof fn lemma_stale_memory_recovery(
    pending: Seq<EntryV>,
    path: Seq<Seq<char>>,
    memory: Map<Seq<Seq<char>>, EntryV>,
    height: int,
    half: int,
)
    requires
        memory.contains_key(path),
        forall|j: int| 0 <= j < pending.len() ==> pending[j] != memory[path],
    ensures
        ({
            let r = populate_spec(pending, path, memory, height, half);
            &&& r.buffer == populate_fresh(pending, height, memory.remove(path)).buffer
            &&& r.focus == dir_count(r.buffer) / 2
            &&& r.memory == memory.remove(path)
            &&& !r.memory.contains_key(path)
            &&& populate_spec(pending, path, r.memory, height, half) == populate_fresh(
                pending,
                height,
                r.memory,
            )
        }),
{
    lemma_first_match_none(pending, memory[path]);
}

/// Where the visible window of a listing of `count` entries sits on a
/// screen of `height` rows when the focus is centered: the item at
/// position `start_index + k` of the listing is drawn at row
/// `start_row + k`, and the focused item is redrawn at row `height / 2`.
pub struct ListingLayout {
    pub start_index: usize,
    pub start_row: u16,
    pub visible_count: usize,
}

/// The viewport window: centers the focus row at `height / 2` whenever
/// enough entries exist on both sides, and otherwise pins to the top or
/// bottom of the listing.
pub fn listing_layout(focus: usize, height: u16, count: usize) -> (l: ListingLayout)
    ensures
        l.start_index as int == if focus as int > height as int / 2 {
            focus as int - height as int / 2
        } else {
            0
        },
        l.start_row as int == if height as int / 2 > focus as int {
            height as int / 2 - focus as int
        } else {
            0
        },
        l.visible_count as int == if count as int > l.start_index as int {
            min(height as int, count as int - l.start_index as int)
        } else {
            0
        },
{
    let half = height / 2;
    let start_index = if focus > half as usize { focus - half as usize } else { 0 };
    let start_row = if half as usize > focus { half - focus as u16 } else { 0 };
    let visible_count = if count > start_index {
        let below = count - start_index;
        if below > height as usize {
            height as usize
        } else {
            below
        }
    } else {
        0
    };
    ListingLayout { start_index, start_row, visible_count }
}

} // verus!
