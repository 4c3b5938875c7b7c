use vstd::prelude::*;

verus! {

/// Mathematical value of a directory entry: a name and whether it names a
/// directory.
pub struct EntryV {
    pub name: Seq<char>,
    pub is_dir: bool,
}

/// A child of a directory: its file name and whether it is itself a
/// directory.  Immutable once constructed; equality is structural.
#[derive(Debug)]
pub struct Entry {
    pub name: String,
    pub is_dir: bool,
}

impl Clone for Entry {
    fn clone(&self) -> (r: Self)
        ensures
            r == *self,
    {
        Entry { name: self.name.clone(), is_dir: self.is_dir }
    }
}

impl View for Entry {
    type V = EntryV;

    open spec fn view(&self) -> EntryV {
        EntryV { name: self.name@, is_dir: self.is_dir }
    }
}

/// The views of a sequence of entries.
pub open spec fn entry_views(s: Seq<Entry>) -> Seq<EntryV> {
    s.map_values(|e: Entry| e@)
}

/// The one shared structural-equality predicate on entries: same name and
/// same directory-ness.
pub fn same_entry(a: &Entry, b: &Entry) -> (r: bool)
    ensures
        r == (a@ == b@),
{
    a.name == b.name && a.is_dir == b.is_dir
}

/// A copy of a listing, equal to the original.
pub fn clone_entries(v: &Vec<Entry>) -> (r: Vec<Entry>)
    ensures
        r@ == v@,
{
    let r = v.clone();
    proof {
        assert forall|i: int| 0 <= i < v@.len() implies r@[i] == v@[i] by {
            assert(cloned::<Entry>(v@[i], r@[i]));
        }
        assert(r@ =~= v@);
    }
    r
}

} // verus!
