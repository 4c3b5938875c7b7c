use vstd::prelude::*;
use crate::entry::{Entry, EntryV, entry_views};

verus! {

/// The predicate selecting entries whose name exactly equals `q`.
pub open spec fn name_is(q: Seq<char>) -> spec_fn(EntryV) -> bool {
    |e: EntryV| e.name == q
}

/// The view of the buffer that a query derives: with a query set, the
/// entries whose name exactly equals it, in buffer order; without one,
/// the buffer itself.
pub open spec fn visible_view(buffer: Seq<EntryV>, query: Option<Seq<char>>) -> Seq<EntryV> {
    match query {
        Option::None => buffer,
        Option::Some(q) => buffer.filter(name_is(q)),
    }
}

/// The entries of `buffer` whose name exactly equals `query`, preserving
/// order.
pub fn filter_exact(buffer: &Vec<Entry>, query: &String) -> (out: Vec<Entry>)
    ensures
        entry_views(out@) == entry_views(buffer@).filter(name_is(query@)),
{
    let ghost bv = entry_views(buffer@);
    let mut out: Vec<Entry> = Vec::new();
    let mut i: usize = 0;
    while i < buffer.len()
        invariant
            i <= buffer@.len(),
            bv == entry_views(buffer@),
            entry_views(out@) == bv.take(i as int).filter(name_is(query@)),
        decreases buffer@.len() - i,
    {
        let ghost out_pre = entry_views(out@);
        if buffer[i].name == *query {
            out.push(buffer[i].clone());
            proof {
                assert(entry_views(out@) =~= out_pre.push(bv[i as int]));
            }
        }
        proof {
            assert(bv.take(i + 1) =~= bv.take(i as int).push(bv[i as int]));
            bv.take(i as int).lemma_filter_push(bv[i as int], name_is(query@));
        }
        i = i + 1;
    }
    proof {
        assert(bv.take(buffer@.len() as int) =~= bv);
    }
    out
}

} // verus!
