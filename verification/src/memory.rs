use vstd::prelude::*;
use crate::entry::{Entry, EntryV};

verus! {

/// The view of a path: its segments' views, root-most first.
pub open spec fn path_view(p: Seq<String>) -> Seq<Seq<char>> {
    p.map_values(|s: String| s@)
}

/// Exact equality of two paths, segment by segment.
pub fn same_path(a: &Vec<String>, b: &Vec<String>) -> (r: bool)
    ensures
        r == (path_view(a@) == path_view(b@)),
{
    if a.len() != b.len() {
        return false;
    }
    let mut i: usize = 0;
    while i < a.len()
        invariant
            i <= a@.len(),
            a@.len() == b@.len(),
            forall|k: int| 0 <= k < i ==> path_view(a@)[k] == path_view(b@)[k],
        decreases a@.len() - i,
    {
        if !(a[i] == b[i]) {
            assert(path_view(a@)[i as int] != path_view(b@)[i as int]);
            return false;
        }
        i = i + 1;
    }
    proof {
        assert(path_view(a@) =~= path_view(b@));
    }
    true
}

/// A clone of a path, equal to the original.
pub fn clone_path(p: &Vec<String>) -> (r: Vec<String>)
    ensures
        r@ == p@,
{
    let r = p.clone();
    proof {
        assert forall|i: int| 0 <= i < p@.len() implies r@[i] == p@[i] by {
            assert(cloned::<String>(p@[i], r@[i]));
        }
        assert(r@ =~= p@);
    }
    r
}

/// The mapping that a sequence of remembered pairs stands for; a later pair
/// with the same key overrides an earlier one.
pub open spec fn assoc_map(s: Seq<(Seq<Seq<char>>, EntryV)>) -> Map<Seq<Seq<char>>, EntryV>
    decreases s.len(),
{
    if s.len() == 0 {
        Map::empty()
    } else {
        assoc_map(s.drop_last()).insert(s.last().0, s.last().1)
    }
}

/// No two remembered pairs share a key.
pub open spec fn keys_distinct(s: Seq<(Seq<Seq<char>>, EntryV)>) -> bool {
    forall|i: int, j: int| 0 <= i < j < s.len() ==> (#[trigger] s[i]).0 != (#[trigger] s[j]).0
}

proof fn lemma_assoc_found(s: Seq<(Seq<Seq<char>>, EntryV)>, i: int)
    requires
        keys_distinct(s),
        0 <= i < s.len(),
    ensures
        assoc_map(s).contains_key(s[i].0),
        assoc_map(s)[s[i].0] == s[i].1,
    decreases s.len(),
{
    if i < s.len() - 1 {
        lemma_assoc_found(s.drop_last(), i);
    }
}

proof fn lemma_assoc_absent(s: Seq<(Seq<Seq<char>>, EntryV)>, k: Seq<Seq<char>>)
    requires
        forall|i: int| 0 <= i < s.len() ==> (#[trigger] s[i]).0 != k,
    ensures
        !assoc_map(s).contains_key(k),
    decreases s.len(),
{
    if s.len() > 0 {
        lemma_assoc_absent(s.drop_last(), k);
    }
}

proof fn lemma_assoc_update(s: Seq<(Seq<Seq<char>>, EntryV)>, i: int, v: EntryV)
    requires
        keys_distinct(s),
        0 <= i < s.len(),
    ensures
        assoc_map(s.update(i, (s[i].0, v))) == assoc_map(s).insert(s[i].0, v),
    decreases s.len(),
{
    let k = s[i].0;
    let s2 = s.update(i, (k, v));
    if i == s.len() - 1 {
        assert(s2.drop_last() =~= s.drop_last());
        assert(assoc_map(s2) =~= assoc_map(s).insert(k, v));
    } else {
        assert(s2.drop_last() =~= s.drop_last().update(i, (k, v)));
        lemma_assoc_update(s.drop_last(), i, v);
        assert(s.last().0 != k);
        assert(assoc_map(s2) =~= assoc_map(s).insert(k, v));
    }
}

proof fn lemma_assoc_remove(s: Seq<(Seq<Seq<char>>, EntryV)>, i: int)
    requires
        keys_distinct(s),
        0 <= i < s.len(),
    ensures
        assoc_map(s.remove(i)) == assoc_map(s).remove(s[i].0),
    decreases s.len(),
{
    let k = s[i].0;
    if i == s.len() - 1 {
        assert(s.remove(i) =~= s.drop_last());
        lemma_assoc_absent(s.drop_last(), k);
        assert(assoc_map(s.drop_last()) =~= assoc_map(s).remove(k));
    } else {
        assert(s.remove(i).drop_last() =~= s.drop_last().remove(i));
        assert(s.remove(i).last() == s.last());
        lemma_assoc_remove(s.drop_last(), i);
        assert(s.last().0 != k);
        assert(assoc_map(s.remove(i)) =~= assoc_map(s).remove(k));
    }
}

/// Per-path memory of the child that was focused the last time each path was
/// left.  At most one remembered entry per path; later writes overwrite
/// earlier ones.
pub struct FocusMemory {
    slots: Vec<(Vec<String>, Entry)>,
}

/// The views of the remembered pairs, oldest first.
pub open spec fn slot_views(s: Seq<(Vec<String>, Entry)>) -> Seq<(Seq<Seq<char>>, EntryV)> {
    s.map_values(|p: (Vec<String>, Entry)| (path_view(p.0@), p.1@))
}

impl View for FocusMemory {
    type V = Map<Seq<Seq<char>>, EntryV>;

    closed spec fn view(&self) -> Map<Seq<Seq<char>>, EntryV> {
        assoc_map(slot_views(self.slots@))
    }
}

impl FocusMemory {
    pub closed spec fn wf(self) -> bool {
        keys_distinct(slot_views(self.slots@))
    }

    /// An empty memory: the session starts with no path visited.
    pub fn new() -> (m: FocusMemory)
        ensures
            m.wf(),
            m@ == Map::<Seq<Seq<char>>, EntryV>::empty(),
    {
        FocusMemory { slots: Vec::new() }
    }

    /// The position of the pair remembered for `key`, if one exists.
    fn find(&self, key: &Vec<String>) -> (r: Option<usize>)
        ensures
            match r {
                Some(i) => {
                    &&& i < self.slots@.len()
                    &&& slot_views(self.slots@)[i as int].0 == path_view(key@)
                },
                None => forall|j: int|
                    0 <= j < self.slots@.len()
                        ==> (#[trigger] slot_views(self.slots@)[j]).0 != path_view(key@),
            },
    {
        let mut i: usize = 0;
        while i < self.slots.len()
            invariant
                i <= self.slots@.len(),
                forall|j: int|
                    0 <= j < i ==> (#[trigger] slot_views(self.slots@)[j]).0 != path_view(key@),
            decreases self.slots@.len() - i,
        {
            if same_path(&self.slots[i].0, key) {
                return Some(i);
            }
            i = i + 1;
        }
        None
    }

    /// The entry remembered for `key`, if any.
    pub fn lookup(&self, key: &Vec<String>) -> (r: Option<Entry>)
        requires
            self.wf(),
        ensures
            match r {
                Some(e) => {
                    &&& self@.contains_key(path_view(key@))
                    &&& e@ == self@[path_view(key@)]
                },
                None => !self@.contains_key(path_view(key@)),
            },
    {
        match self.find(key) {
            Some(i) => {
                proof {
                    lemma_assoc_found(slot_views(self.slots@), i as int);
                }
                Some(self.slots[i].1.clone())
            },
            None => {
                proof {
                    lemma_assoc_absent(slot_views(self.slots@), path_view(key@));
                }
                None
            },
        }
    }

    /// Remember `value` for `key`, overwriting any earlier entry.
    pub fn insert(&mut self, key: Vec<String>, value: Entry)
        requires
            old(self).wf(),
        ensures
            final(self).wf(),
            final(self)@ == old(self)@.insert(path_view(key@), value@),
    {
        let ghost s0 = slot_views(self.slots@);
        match self.find(&key) {
            Some(i) => {
                self.slots.set(i, (key, value));
                proof {
                    assert(slot_views(self.slots@) =~= s0.update(i as int, (s0[i as int].0, value@)));
                    lemma_assoc_update(s0, i as int, value@);
                    assert forall|a: int, b: int|
                        0 <= a < b < slot_views(self.slots@).len()
                        implies (#[trigger] slot_views(self.slots@)[a]).0
                            != (#[trigger] slot_views(self.slots@)[b]).0 by {
                        assert(slot_views(self.slots@)[a].0 == s0[a].0);
                        assert(slot_views(self.slots@)[b].0 == s0[b].0);
                    }
                }
            },
            None => {
                self.slots.push((key, value));
                proof {
                    assert(slot_views(self.slots@) =~= s0.push((path_view(key@), value@)));
                    assert(slot_views(self.slots@).drop_last() =~= s0);
                }
            },
        }
    }

    /// Forget the entry remembered for `key`, if any; self-healing for a
    /// remembered child that no longer exists.
    pub fn remove(&mut self, key: &Vec<String>)
        requires
            old(self).wf(),
        ensures
            final(self).wf(),
            final(self)@ == old(self)@.remove(path_view(key@)),
    {
        let ghost s0 = slot_views(self.slots@);
        match self.find(key) {
            Some(i) => {
                self.slots.remove(i);
                proof {
                    assert(slot_views(self.slots@) =~= s0.remove(i as int));
                    lemma_assoc_remove(s0, i as int);
                    assert forall|a: int, b: int|
                        0 <= a < b < slot_views(self.slots@).len()
                        implies (#[trigger] slot_views(self.slots@)[a]).0
                            != (#[trigger] slot_views(self.slots@)[b]).0 by {
                        let a0 = if a < i as int { a } else { a + 1 };
                        let b0 = if b < i as int { b } else { b + 1 };
                        assert(slot_views(self.slots@)[a].0 == s0[a0].0);
                        assert(slot_views(self.slots@)[b].0 == s0[b0].0);
                    }
                }
            },
            None => {
                proof {
                    lemma_assoc_absent(s0, path_view(key@));
                    assert(self@.remove(path_view(key@)) =~= self@);
                }
            },
        }
    }
}

} // verus!
