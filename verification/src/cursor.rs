use vstd::prelude::*;
use crate::entry::{Entry, EntryV, entry_views};

verus! {

/// The predicate selecting directory entries.
pub open spec fn is_dir_pred() -> spec_fn(EntryV) -> bool {
    |e: EntryV| e.is_dir
}

/// The predicate selecting file (non-directory) entries.
pub open spec fn is_file_pred() -> spec_fn(EntryV) -> bool {
    |e: EntryV| !e.is_dir
}

/// The directories-first ordering of an enumeration: every child that is a
/// directory, in enumeration order, then every child that is a file, in
/// enumeration order.
pub open spec fn dirs_first(s: Seq<EntryV>) -> Seq<EntryV> {
    s.filter(is_dir_pred()) + s.filter(is_file_pred())
}

/// How many entries of `s` are directories.
pub open spec fn dir_count(s: Seq<EntryV>) -> int {
    s.filter(is_dir_pred()).len() as int
}

/// Directories-first partition: no file entry precedes any directory entry.
pub open spec fn partitioned(s: Seq<EntryV>) -> bool {
    forall|i: int, j: int|
        0 <= i <= j < s.len() && (#[trigger] s[j]).is_dir ==> (#[trigger] s[i]).is_dir
}

/// The directories-first ordering is partitioned.
pub proof fn lemma_dirs_first_partitioned(s: Seq<EntryV>)
    ensures
        partitioned(dirs_first(s)),
{
    let d = s.filter(is_dir_pred());
    let f = s.filter(is_file_pred());
    assert forall|i: int, j: int|
        0 <= i <= j < dirs_first(s).len() && (#[trigger] dirs_first(s)[j]).is_dir
        implies (#[trigger] dirs_first(s)[i]).is_dir by {
        if j >= d.len() {
            s.lemma_filter_pred(is_file_pred(), j - d.len());
        } else {
            s.lemma_filter_pred(is_dir_pred(), i);
        }
    }
}

/// A prefix of a partitioned sequence is partitioned.
pub proof fn lemma_partitioned_take(s: Seq<EntryV>, n: int)
    requires
        partitioned(s),
        0 <= n <= s.len(),
    ensures
        partitioned(s.take(n)),
{
    assert forall|i: int, j: int|
        0 <= i <= j < s.take(n).len() && (#[trigger] s.take(n)[j]).is_dir
        implies (#[trigger] s.take(n)[i]).is_dir by {
        assert(s.take(n)[j] == s[j]);
        assert(s.take(n)[i] == s[i]);
    }
}

/// Reordering directories first keeps every entry: the two passes
/// together hand out exactly the enumeration.
pub proof fn lemma_dirs_first_len(s: Seq<EntryV>)
    ensures
        dirs_first(s).len() == s.len(),
    decreases s.len(),
{
    reveal(Seq::filter);
    if s.len() > 0 {
        lemma_dirs_first_len(s.drop_last());
    }
}

/// There are never more directories among `s` than entries.
pub proof fn lemma_dir_count_le_len(s: Seq<EntryV>)
    ensures
        0 <= dir_count(s) <= s.len(),
{
    s.lemma_filter_len(is_dir_pred());
}

/// Counting directories one entry at a time.
pub proof fn lemma_dir_count_push(s: Seq<EntryV>, e: EntryV)
    ensures
        dir_count(s.push(e)) == dir_count(s) + if e.is_dir { 1int } else { 0int },
{
    s.lemma_filter_push(e, is_dir_pred());
}

/// A lazy, single-pass pull cursor over the children of one directory.  Each
/// pull hands out the next entry and cannot be undone; the cursor is
/// discarded and rebuilt whenever the path changes.
pub struct EntryCursor {
    items: Vec<Entry>,
    pos: usize,
}

impl EntryCursor {
    /// The entries not yet pulled, next first.
    pub closed spec fn remaining(self) -> Seq<EntryV> {
        entry_views(self.items@).skip(self.pos as int)
    }

    pub closed spec fn wf(self) -> bool {
        self.pos <= self.items@.len()
    }

    /// A fresh cursor over the enumeration `raw`, reordered directories
    /// first: the directory pass, then the file pass, chained.
    pub fn dirs_first_cursor(raw: Vec<Entry>) -> (c: EntryCursor)
        ensures
            c.wf(),
            c.remaining() == dirs_first(entry_views(raw@)),
    {
        let ghost rv = entry_views(raw@);
        let mut items: Vec<Entry> = Vec::new();
        let mut i: usize = 0;
        while i < raw.len()
            invariant
                i <= raw@.len(),
                rv == entry_views(raw@),
                entry_views(items@) == rv.take(i as int).filter(is_dir_pred()),
            decreases raw@.len() - i,
        {
            let ghost items_pre = entry_views(items@);
            if raw[i].is_dir {
                items.push(raw[i].clone());
                proof {
                    assert(entry_views(items@) =~= items_pre.push(rv[i as int]));
                }
            }
            proof {
                assert(rv.take(i + 1) =~= rv.take(i as int).push(rv[i as int]));
                rv.take(i as int).lemma_filter_push(rv[i as int], is_dir_pred());
            }
            i = i + 1;
        }
        let ghost dirs_part = entry_views(items@);
        proof {
            assert(rv.take(rv.len() as int) =~= rv);
        }
        let mut j: usize = 0;
        while j < raw.len()
            invariant
                j <= raw@.len(),
                rv == entry_views(raw@),
                dirs_part == rv.filter(is_dir_pred()),
                entry_views(items@) == dirs_part + rv.take(j as int).filter(is_file_pred()),
            decreases raw@.len() - j,
        {
            let ghost items_pre = entry_views(items@);
            if !raw[j].is_dir {
                items.push(raw[j].clone());
                proof {
                    assert(entry_views(items@) =~= items_pre.push(rv[j as int]));
                }
            }
            proof {
                assert(rv.take(j + 1) =~= rv.take(j as int).push(rv[j as int]));
                rv.take(j as int).lemma_filter_push(rv[j as int], is_file_pred());
            }
            j = j + 1;
        }
        proof {
            assert(rv.take(rv.len() as int) =~= rv);
            assert(entry_views(items@).skip(0) =~= entry_views(items@));
        }
        EntryCursor { items, pos: 0 }
    }

    /// Resume a cursor over entries that were pulled but handed back, in the
    /// order they would have been pulled.
    pub fn resume(rest: Vec<Entry>) -> (c: EntryCursor)
        ensures
            c.wf(),
            c.remaining() == entry_views(rest@),
    {
        proof {
            assert(entry_views(rest@).skip(0) =~= entry_views(rest@));
        }
        EntryCursor { items: rest, pos: 0 }
    }

    /// Pull the next entry.  Advances the underlying read position: the same
    /// entry is never handed out twice.
    pub fn next(&mut self) -> (r: Option<Entry>)
        requires
            old(self).wf(),
        ensures
            final(self).wf(),
            match r {
                Some(e) => {
                    &&& old(self).remaining().len() > 0
                    &&& e@ == old(self).remaining()[0]
                    &&& final(self).remaining() == old(self).remaining().skip(1)
                },
                None => {
                    &&& old(self).remaining().len() == 0
                    &&& final(self).remaining() == old(self).remaining()
                },
            },
    {
        if self.pos < self.items.len() {
            let e = self.items[self.pos].clone();
            self.pos = self.pos + 1;
            proof {
                assert(self.remaining() =~= old(self).remaining().skip(1));
            }
            Some(e)
        } else {
            None
        }
    }
}

} // verus!
