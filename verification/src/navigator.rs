use vstd::prelude::*;
use vstd::math::min;
use crate::breadcrumb::{anchor_cap, anchor_for, breadcrumb_draws, crumb_draws, draw_views,
    grow_anchor, path_width, Draw, DrawV};
use crate::cursor::{dir_count, dirs_first, lemma_dir_count_le_len, lemma_dir_count_push,
    lemma_dirs_first_len, lemma_dirs_first_partitioned, lemma_partitioned_take, partitioned,
    EntryCursor};
use crate::entry::{clone_entries, entry_views, same_entry, Entry, EntryV};
use crate::memory::{clone_path, path_view, FocusMemory};
use crate::query::{filter_exact, visible_view};
use crate::viewport::{fill_spec, first_match, lemma_first_match_at, lemma_first_match_none,
    lemma_first_match_props, populate_fresh, populate_spec, Populated};

verus! {

/// The mathematical state of the browser.
#[verifier::ext_equal]
pub struct NavView {
    pub width: int,
    pub height: int,
    pub anchor: int,
    pub path: Seq<Seq<char>>,
    pub buffer: Seq<EntryV>,
    pub pending: Seq<EntryV>,
    pub focus: int,
    pub memory: Map<Seq<Seq<char>>, EntryV>,
    pub query: Option<Seq<char>>,
}

/// The navigation-state invariants: the path never empties, the focus
/// stays inside a non-empty buffer, the buffer together with what is
/// still pending is partitioned directories-first, and the listing fits
/// the machine.
pub open spec fn nav_inv(s: NavView) -> bool {
    &&& s.path.len() >= 1
    &&& if s.buffer.len() == 0 {
        s.focus == 0
    } else {
        0 <= s.focus < s.buffer.len()
    }
    &&& partitioned(s.buffer + s.pending)
    &&& s.buffer.len() + s.pending.len() + 0x1_0000 <= usize::MAX as int
}

/// The state with a freshly populated listing installed: a new path and
/// anchor, and the population result's buffer, pending tail, focus and
/// memory.
pub open spec fn with_population(s: NavView, path: Seq<Seq<char>>, anchor: int, r: Populated)
    -> NavView {
    NavView {
        width: s.width,
        height: s.height,
        anchor: anchor,
        path: path,
        buffer: r.buffer,
        pending: r.pending,
        focus: r.focus,
        memory: r.memory,
        query: s.query,
    }
}

/// The state after descending into the focused child of `s`, whose
/// directory enumerates to `children`: the child's name is pushed onto
/// the path, the anchor grows by the child's share of the breadcrumb,
/// and the child's listing is populated with the remembered focus for
/// the new path restored if it still exists.
pub open spec fn descend_spec(s: NavView, children: Seq<EntryV>) -> NavView
    recommends
        s.buffer.len() > 0,
        0 <= s.focus < s.buffer.len(),
{
    let name = s.buffer[s.focus].name;
    let path2 = s.path.push(name);
    let r = populate_spec(dirs_first(children), path2, s.memory, s.height, s.height / 2);
    with_population(s, path2, min(s.anchor + name.len() + 3, anchor_cap(s.width)), r)
}

/// The state after leaving the current directory for its parent, whose
/// directory enumerates to `children`: the focused child is remembered
/// for the directory being left, the directory being left is remembered
/// for the parent (so descending again re-enters the same child), one
/// segment is popped, and the parent's listing is populated.
pub open spec fn move_out_spec(s: NavView, children: Seq<EntryV>) -> NavView
    recommends
        s.path.len() >= 2,
        s.buffer.len() > 0 ==> 0 <= s.focus < s.buffer.len(),
{
    let mem1 = if s.buffer.len() > 0 {
        s.memory.insert(s.path, s.buffer[s.focus])
    } else {
        s.memory
    };
    let parent = s.path.drop_last();
    let mem2 = mem1.insert(parent, EntryV { name: s.path.last(), is_dir: true });
    let r = populate_spec(dirs_first(children), parent, mem2, s.height, s.height / 2);
    with_population(s, parent, min(path_width(parent), anchor_cap(s.width)), r)
}

/// What `move_into` would do from the current state.
pub enum MoveIntoStep {
    /// The buffer is empty: nothing to move into.
    NothingHere,
    /// The focused entry is not a directory.
    NotADirectory,
    /// Descend into the focused child: the path whose children the
    /// caller must enumerate before calling `move_into`.
    Descend(Vec<String>),
}

/// The interactive directory browser's state: the current path, a
/// growable directories-first listing of its children pulled on demand
/// from a single-pass cursor, a focus index, the per-path focus memory,
/// and an optional exact-match query.
pub struct Navigator {
    width: u16,
    height: u16,
    anchor: u16,
    memory: FocusMemory,
    path: Vec<String>,
    buffer: Vec<Entry>,
    cursor: EntryCursor,
    query: Option<String>,
    focus: usize,
}

impl View for Navigator {
    type V = NavView;

    closed spec fn view(&self) -> NavView {
        NavView {
            width: self.width as int,
            height: self.height as int,
            anchor: self.anchor as int,
            path: path_view(self.path@),
            buffer: entry_views(self.buffer@),
            pending: self.cursor.remaining(),
            focus: self.focus as int,
            memory: self.memory@,
            query: match self.query {
                Option::Some(q) => Option::Some(q@),
                Option::None => Option::None,
            },
        }
    }
}

impl Navigator {
    pub closed spec fn wf(&self) -> bool {
        &&& self.cursor.wf()
        &&& self.memory.wf()
        &&& nav_inv(self@)
    }

    /// A well-formed navigator satisfies the navigation-state invariants.
    pub proof fn lemma_wf_inv(&self)
        requires
            self.wf(),
        ensures
            nav_inv(self@),
    {
    }

    /// The buffer of a well-formed navigator is partitioned: no file
    /// entry precedes any directory entry.
    pub proof fn lemma_buffer_partitioned(&self)
        requires
            self.wf(),
        ensures
            partitioned(self@.buffer),
    {
        let s = self@;
        assert(s.buffer =~= (s.buffer + s.pending).take(s.buffer.len() as int));
        lemma_partitioned_take(s.buffer + s.pending, s.buffer.len() as int);
    }

    /// The fill procedure: pull further entries, appending to the
    /// buffer, until it holds `focus + height / 2` entries or the cursor
    /// is exhausted.
    fn fill_to_bottom(&mut self)
        requires
            old(self).cursor.wf(),
            old(self)@.focus + old(self)@.height <= usize::MAX as int,
        ensures
            final(self).cursor.wf(),
            final(self).memory == old(self).memory,
            final(self).width == old(self).width,
            final(self).height == old(self).height,
            final(self).anchor == old(self).anchor,
            final(self).path == old(self).path,
            final(self).query == old(self).query,
            final(self).focus == old(self).focus,
            ({
                let f = fill_spec(old(self)@.buffer, old(self)@.pending, old(self)@.focus,
                    old(self)@.height / 2);
                final(self)@.buffer == f.0 && final(self)@.pending == f.1
            }),
    {
        let ghost b0 = entry_views(self.buffer@);
        let ghost p0 = self.cursor.remaining();
        let half = self.height / 2;
        let target: usize = self.focus + half as usize;
        while self.buffer.len() < target
            invariant
                self.cursor.wf(),
                self.memory == old(self).memory,
                self.width == old(self).width,
                self.height == old(self).height,
                self.anchor == old(self).anchor,
                self.path == old(self).path,
                self.query == old(self).query,
                self.focus == old(self).focus,
                target == old(self)@.focus + old(self)@.height / 2,
                b0 == old(self)@.buffer,
                p0 == old(self)@.pending,
                b0.len() <= self.buffer@.len(),
                self.buffer@.len() - b0.len() <= p0.len(),
                self.buffer@.len() <= target || self.buffer@.len() == b0.len(),
                entry_views(self.buffer@) == b0 + p0.take(self.buffer@.len() - b0.len()),
                self.cursor.remaining() == p0.skip(self.buffer@.len() - b0.len()),
            ensures
                self.buffer@.len() >= target || self.cursor.remaining().len() == 0,
            decreases target - self.buffer@.len(),
        {
            let pulled = self.cursor.next();
            match pulled {
                Option::Some(e) => {
                    let ghost pre = entry_views(self.buffer@);
                    let ghost k = self.buffer@.len() - b0.len();
                    self.buffer.push(e);
                    proof {
                        assert(entry_views(self.buffer@) =~= pre.push(e@));
                        assert(p0.take(k + 1) =~= p0.take(k).push(p0[k]));
                    }
                },
                Option::None => {
                    break;
                },
            }
        }
        proof {
            let f = fill_spec(b0, p0, old(self)@.focus, old(self)@.height / 2);
            let pulled = self.buffer@.len() - b0.len();
            let need = old(self)@.focus + old(self)@.height / 2 - b0.len();
            if need <= 0 {
                assert(pulled == 0);
                assert(entry_views(self.buffer@) =~= b0);
                assert(self.cursor.remaining() =~= p0);
            } else {
                let k = min(need, p0.len() as int);
                if self.buffer@.len() >= target {
                    assert(pulled == need);
                } else {
                    assert(p0.skip(pulled).len() == 0);
                    assert(pulled == p0.len());
                }
                assert(pulled == k);
                assert(entry_views(self.buffer@) == b0 + p0.take(k));
                assert(self.cursor.remaining() == p0.skip(k));
            }
        }
    }

    /// A fresh visit: pull up to `height` entries into the empty buffer
    /// and focus the midpoint of the directory group.
    fn refill_fresh(&mut self)
        requires
            old(self).cursor.wf(),
            old(self)@.buffer.len() == 0,
            old(self)@.pending.len() + 0x1_0000 <= usize::MAX as int,
        ensures
            final(self).cursor.wf(),
            final(self).memory == old(self).memory,
            final(self).width == old(self).width,
            final(self).height == old(self).height,
            final(self).anchor == old(self).anchor,
            final(self).path == old(self).path,
            final(self).query == old(self).query,
            ({
                let r = populate_fresh(old(self)@.pending, old(self)@.height, old(self)@.memory);
                &&& final(self)@.buffer == r.buffer
                &&& final(self)@.pending == r.pending
                &&& final(self)@.focus == r.focus
            }),
    {
        let ghost p0 = self.cursor.remaining();
        let h: usize = self.height as usize;
        let mut dirs: usize = 0;
        let mut i: usize = 0;
        while i < h
            invariant
                self.cursor.wf(),
                self.memory == old(self).memory,
                self.width == old(self).width,
                self.height == old(self).height,
                self.anchor == old(self).anchor,
                self.path == old(self).path,
                self.query == old(self).query,
                h == old(self)@.height,
                p0 == old(self)@.pending,
                i <= h,
                i <= p0.len(),
                self.buffer@.len() == i,
                entry_views(self.buffer@) == p0.take(i as int),
                self.cursor.remaining() == p0.skip(i as int),
                dirs as int == dir_count(p0.take(i as int)),
                dirs <= i,
            ensures
                i == h || self.cursor.remaining().len() == 0,
            decreases h - i,
        {
            let pulled = self.cursor.next();
            match pulled {
                Option::Some(e) => {
                    if e.is_dir {
                        dirs = dirs + 1;
                    }
                    let ghost pre = entry_views(self.buffer@);
                    self.buffer.push(e);
                    proof {
                        assert(entry_views(self.buffer@) =~= pre.push(e@));
                        assert(p0.take(i + 1) =~= p0.take(i as int).push(p0[i as int]));
                        lemma_dir_count_push(p0.take(i as int), p0[i as int]);
                    }
                    i = i + 1;
                },
                Option::None => {
                    break;
                },
            }
        }
        self.focus = dirs / 2;
        proof {
            let n = min(old(self)@.height, p0.len() as int);
            if i == h {
                assert(self.buffer@.len() == n);
            } else {
                assert(p0.skip(i as int).len() == 0);
                assert(self.buffer@.len() == n);
            }
        }
    }

    /// The population algorithm: rebuild the listing for the current
    /// path from the freshly installed cursor, restoring the remembered
    /// focus for this path when it still exists, healing the memory when
    /// it does not.
    fn populate(&mut self)
        requires
            old(self).cursor.wf(),
            old(self).memory.wf(),
            old(self)@.buffer.len() == 0,
            old(self)@.pending.len() + 0x1_0000 <= usize::MAX as int,
            old(self)@.path.len() >= 1,
            partitioned(old(self)@.pending),
        ensures
            final(self).wf(),
            final(self).width == old(self).width,
            final(self).height == old(self).height,
            final(self).anchor == old(self).anchor,
            final(self).path == old(self).path,
            final(self).query == old(self).query,
            ({
                let r = populate_spec(old(self)@.pending, old(self)@.path, old(self)@.memory,
                    old(self)@.height, old(self)@.height / 2);
                &&& final(self)@.buffer == r.buffer
                &&& final(self)@.pending == r.pending
                &&& final(self)@.focus == r.focus
                &&& final(self)@.memory == r.memory
            }),
    {
        let ghost p0 = self.cursor.remaining();
        let remembered = self.memory.lookup(&self.path);
        match remembered {
            Option::None => {
                self.refill_fresh();
                proof {
                    self.finish_population(p0, old(self)@);
                }
            },
            Option::Some(m) => {
                let ghost t = m@;
                loop
                    invariant
                        self.cursor.wf(),
                        self.memory.wf(),
                        self.memory == old(self).memory,
                        self.width == old(self).width,
                        self.height == old(self).height,
                        self.anchor == old(self).anchor,
                        self.path == old(self).path,
                        self.query == old(self).query,
                        self.focus == old(self).focus,
                        m@ == t,
                        t == old(self)@.memory[old(self)@.path],
                        old(self)@.memory.contains_key(old(self)@.path),
                        p0 == old(self)@.pending,
                        p0.len() + 0x1_0000 <= usize::MAX as int,
                        partitioned(p0),
                        old(self)@.path.len() >= 1,
                        self.buffer@.len() <= p0.len(),
                        entry_views(self.buffer@) == p0.take(self.buffer@.len() as int),
                        self.cursor.remaining() == p0.skip(self.buffer@.len() as int),
                        forall|j: int| 0 <= j < self.buffer@.len() ==> p0[j] != t,
                    ensures
                        self.cursor.remaining().len() == 0,
                        self.buffer@.len() == p0.len(),
                        forall|j: int| 0 <= j < self.buffer@.len() ==> p0[j] != t,
                        self.cursor.wf(),
                        self.memory.wf(),
                        self.memory == old(self).memory,
                        self.width == old(self).width,
                        self.height == old(self).height,
                        self.anchor == old(self).anchor,
                        self.path == old(self).path,
                        self.query == old(self).query,
                        entry_views(self.buffer@) == p0.take(self.buffer@.len() as int),
                    decreases self.cursor.remaining().len(),
                {
                    let pulled = self.cursor.next();
                    match pulled {
                        Option::Some(e) => {
                            let ghost k = self.buffer@.len() as int;
                            proof {
                                assert(e@ == p0.skip(k)[0]);
                                assert(p0.skip(k)[0] == p0[k]);
                            }
                            if same_entry(&e, &m) {
                                proof {
                                    assert(p0[k] == t);
                                    lemma_first_match_at(p0, t, k);
                                }
                                self.focus = self.buffer.len();
                                let ghost pre = entry_views(self.buffer@);
                                self.buffer.push(e);
                                proof {
                                    assert(entry_views(self.buffer@) =~= pre.push(e@));
                                    assert(p0.take(k + 1) =~= p0.take(k).push(p0[k]));
                                }
                                self.fill_to_bottom();
                                proof {
                                    let r = populate_spec(p0, old(self)@.path, old(self)@.memory,
                                        old(self)@.height, old(self)@.height / 2);
                                    let filled = fill_spec(p0.take(k + 1), p0.skip(k + 1), k,
                                        old(self)@.height / 2);
                                    assert(r.buffer == filled.0 && r.pending == filled.1
                                        && r.focus == k && r.memory == old(self)@.memory);
                                    assert(self@.buffer == r.buffer);
                                    assert(self@.buffer.len() >= k + 1);
                                    assert(self@.buffer + self@.pending =~= p0);
                                    assert(nav_inv(self@));
                                }
                                return;
                            } else {
                                let ghost pre = entry_views(self.buffer@);
                                self.buffer.push(e);
                                proof {
                                    assert(entry_views(self.buffer@) =~= pre.push(e@));
                                    assert(p0.take(k + 1) =~= p0.take(k).push(p0[k]));
                                }
                            }
                        },
                        Option::None => {
                            break;
                        },
                    }
                }
                // the remembered entry is stale: heal the memory and
                // re-run the whole population as a fresh visit
                proof {
                    lemma_first_match_none(p0, t);
                }
                self.memory.remove(&self.path);
                let ghost full = self.buffer@;
                let rest = self.buffer.split_off(0);
                proof {
                    assert(rest@ =~= full);
                    assert(p0.take(p0.len() as int) =~= p0);
                    assert(entry_views(rest@) == p0);
                    assert(entry_views(self.buffer@) =~= Seq::<EntryV>::empty());
                }
                self.cursor = EntryCursor::resume(rest);
                self.refill_fresh();
                proof {
                    self.finish_population(p0, old(self)@);
                }
            },
        }
    }

    /// After a fresh refill, the state matches the population algorithm
    /// and satisfies the invariants.
    proof fn finish_population(&self, p0: Seq<EntryV>, s0: NavView)
        requires
            self.cursor.wf(),
            self.memory.wf(),
            partitioned(p0),
            p0.len() + 0x1_0000 <= usize::MAX as int,
            self@.path.len() >= 1,
            ({
                let r = populate_fresh(p0, s0.height, self@.memory);
                self@.buffer == r.buffer && self@.pending == r.pending && self@.focus == r.focus
            }),
            s0.height == self@.height,
        ensures
            self.wf(),
            self@.buffer + self@.pending == p0,
    {
        let n = min(s0.height, p0.len() as int);
        assert(self@.buffer + self@.pending =~= p0);
        lemma_dir_count_le_len(self@.buffer);
        if self@.buffer.len() > 0 {
            assert(0 <= self@.focus < self@.buffer.len());
        }
        assert(nav_inv(self@));
    }

    /// A browser session starting at `path`, whose directory enumerates
    /// to `children`, on a `width` by `height` character grid.  No path
    /// has been visited yet, so the focus defaults to the midpoint of
    /// the directory group.
    pub fn new(path: Vec<String>, children: Vec<Entry>, width: u16, height: u16) -> (nav:
        Navigator)
        requires
            path@.len() >= 1,
            children@.len() + 0x1_0000 <= usize::MAX,
        ensures
            nav.wf(),
            ({
                let r = populate_spec(dirs_first(entry_views(children@)), path_view(path@),
                    Map::empty(), height as int, height as int / 2);
                nav@ == (NavView {
                    width: width as int,
                    height: height as int,
                    anchor: min(path_width(path_view(path@)), anchor_cap(width as int)),
                    path: path_view(path@),
                    buffer: r.buffer,
                    pending: r.pending,
                    focus: r.focus,
                    memory: Map::<Seq<Seq<char>>, EntryV>::empty(),
                    query: Option::None,
                })
            }),
    {
        let anchor = anchor_for(&path, width);
        let mut nav = Navigator {
            width,
            height,
            anchor,
            memory: FocusMemory::new(),
            path,
            buffer: Vec::new(),
            cursor: EntryCursor::dirs_first_cursor(children),
            query: Option::None,
            focus: 0,
        };
        proof {
            lemma_dirs_first_partitioned(entry_views(children@));
            lemma_dirs_first_len(entry_views(children@));
        }
        nav.populate();
        proof {
            assert(nav@ =~~= (NavView {
                width: width as int,
                height: height as int,
                anchor: min(path_width(path_view(path@)), anchor_cap(width as int)),
                path: path_view(path@),
                buffer: nav@.buffer,
                pending: nav@.pending,
                focus: nav@.focus,
                memory: nav@.memory,
                query: Option::None,
            }));
        }
        nav
    }

    /// The current path.
    pub fn get_path(&self) -> (r: &Vec<String>)
        ensures
            path_view(r@) == self@.path,
    {
        &self.path
    }

    /// The current focus position in the unfiltered buffer.
    pub fn focus_index(&self) -> (r: usize)
        ensures
            r as int == self@.focus,
    {
        self.focus
    }

    /// The column of the breadcrumb's trailing marker.
    pub fn anchor_column(&self) -> (r: u16)
        ensures
            r as int == self@.anchor,
    {
        self.anchor
    }

    /// The focused entry, if the buffer is not empty.
    pub fn focused(&self) -> (r: Option<&Entry>)
        requires
            self.wf(),
        ensures
            match r {
                Option::Some(e) => self@.buffer.len() > 0 && e@ == self@.buffer[self@.focus],
                Option::None => self@.buffer.len() == 0,
            },
    {
        if self.buffer.len() == 0 {
            Option::None
        } else {
            Option::Some(&self.buffer[self.focus])
        }
    }

    /// Record a new screen size; the listing and anchor follow on the
    /// next path change.
    pub fn set_size(&mut self, width: u16, height: u16)
        requires
            old(self).wf(),
        ensures
            final(self).wf(),
            final(self)@ == (NavView {
                width: width as int,
                height: height as int,
                ..old(self)@
            }),
    {
        self.width = width;
        self.height = height;
    }

    /// Replace the current path and rebuild the listing from `children`,
    /// the enumeration of the new directory: directories first, with the
    /// remembered focus for that path restored if it still exists.
    pub fn set_path(&mut self, path: Vec<String>, children: Vec<Entry>)
        requires
            old(self).wf(),
            path@.len() >= 1,
            children@.len() + 0x1_0000 <= usize::MAX,
        ensures
            final(self).wf(),
            ({
                let r = populate_spec(dirs_first(entry_views(children@)), path_view(path@),
                    old(self)@.memory, old(self)@.height, old(self)@.height / 2);
                final(self)@ == with_population(old(self)@, path_view(path@),
                    min(path_width(path_view(path@)), anchor_cap(old(self)@.width)), r)
            }),
    {
        self.anchor = anchor_for(&path, self.width);
        self.path = path;
        self.buffer = Vec::new();
        self.cursor = EntryCursor::dirs_first_cursor(children);
        proof {
            lemma_dirs_first_partitioned(entry_views(children@));
            lemma_dirs_first_len(entry_views(children@));
        }
        self.populate();
        proof {
            let r = populate_spec(dirs_first(entry_views(children@)), path_view(path@),
                old(self)@.memory, old(self)@.height, old(self)@.height / 2);
            assert(self@ =~~= with_population(old(self)@, path_view(path@),
                min(path_width(path_view(path@)), anchor_cap(old(self)@.width)), r));
        }
    }

    /// Replace the query and reset the focus to the top of the buffer.
    pub fn set_query(&mut self, query: Option<String>)
        requires
            old(self).wf(),
        ensures
            final(self).wf(),
            final(self)@ == (NavView {
                query: match query {
                    Option::Some(q) => Option::Some(q@),
                    Option::None => Option::None,
                },
                focus: 0,
                ..old(self)@
            }),
    {
        self.query = query;
        self.focus = 0;
    }

    /// The entries the listing region shows: the buffer filtered to the
    /// query when one is set, the whole buffer otherwise.  The focus
    /// keeps indexing the unfiltered buffer.
    pub fn visible_entries(&self) -> (out: Vec<Entry>)
        ensures
            entry_views(out@) == visible_view(self@.buffer, self@.query),
    {
        match &self.query {
            Option::None => clone_entries(&self.buffer),
            Option::Some(q) => filter_exact(&self.buffer, q),
        }
    }

    /// The draw commands for the breadcrumb line at the current path and
    /// anchor.
    pub fn breadcrumb(&self) -> (out: Vec<Draw>)
        requires
            self.wf(),
        ensures
            draw_views(out@) == seq![DrawV { col: self@.anchor, text: ">"@ }]
                + crumb_draws(self@.path, self@.anchor),
    {
        breadcrumb_draws(&self.path, self.anchor)
    }

    /// Move the focus one row up; at the top it stays put.
    pub fn move_up(&mut self)
        requires
            old(self).wf(),
        ensures
            final(self).wf(),
            final(self)@ == (NavView {
                focus: if old(self)@.focus > 0 {
                    old(self)@.focus - 1
                } else {
                    old(self)@.focus
                },
                ..old(self)@
            }),
    {
        if self.focus > 0 {
            self.focus = self.focus - 1;
        }
    }

    /// Move the focus one row down and pull enough further entries that
    /// the lower half of the viewport can be filled; at the last entry
    /// it stays put.
    pub fn move_down(&mut self)
        requires
            old(self).wf(),
        ensures
            final(self).wf(),
            ({
                let s = old(self)@;
                if s.buffer.len() > 0 && s.focus < s.buffer.len() - 1 {
                    let f = fill_spec(s.buffer, s.pending, s.focus + 1, s.height / 2);
                    final(self)@ == (NavView {
                        focus: s.focus + 1,
                        buffer: f.0,
                        pending: f.1,
                        ..s
                    })
                } else {
                    final(self)@ == s
                }
            }),
    {
        if self.buffer.len() > 0 && self.focus < self.buffer.len() - 1 {
            self.focus = self.focus + 1;
            self.fill_to_bottom();
            proof {
                let s = old(self)@;
                let f = fill_spec(s.buffer, s.pending, s.focus + 1, s.height / 2);
                assert(self@.buffer + self@.pending =~= s.buffer + s.pending);
                assert(self@ =~~= (NavView { focus: s.focus + 1, buffer: f.0, pending: f.1, ..s }));
                assert(nav_inv(self@));
            }
        }
    }

    /// What `move_into` would do now: the child directory the caller
    /// must enumerate, or why the move is refused.
    pub fn move_into_target(&self) -> (r: MoveIntoStep)
        requires
            self.wf(),
        ensures
            ({
                let s = self@;
                match r {
                    MoveIntoStep::NothingHere => s.buffer.len() == 0,
                    MoveIntoStep::NotADirectory => s.buffer.len() > 0
                        && !s.buffer[s.focus].is_dir,
                    MoveIntoStep::Descend(p) => s.buffer.len() > 0 && s.buffer[s.focus].is_dir
                        && path_view(p@) == s.path.push(s.buffer[s.focus].name),
                }
            }),
    {
        if self.buffer.len() == 0 {
            MoveIntoStep::NothingHere
        } else if !self.buffer[self.focus].is_dir {
            MoveIntoStep::NotADirectory
        } else {
            let mut p = clone_path(&self.path);
            p.push(self.buffer[self.focus].name.clone());
            proof {
                assert(path_view(p@) =~= self@.path.push(self@.buffer[self@.focus].name));
            }
            MoveIntoStep::Descend(p)
        }
    }

    /// Append the focused entry onto the current path and rebuild the
    /// listing from `children`, the enumeration of that child directory.
    /// With an empty buffer or a file focused, the state is left
    /// unchanged and `false` is returned.
    pub fn move_into(&mut self, children: Vec<Entry>) -> (entered: bool)
        requires
            old(self).wf(),
            children@.len() + 0x1_0000 <= usize::MAX,
        ensures
            final(self).wf(),
            ({
                let s = old(self)@;
                if s.buffer.len() == 0 || !s.buffer[s.focus].is_dir {
                    !entered && final(self)@ == s
                } else {
                    entered && final(self)@ == descend_spec(s, entry_views(children@))
                }
            }),
    {
        if self.buffer.len() == 0 {
            return false;
        }
        if !self.buffer[self.focus].is_dir {
            return false;
        }
        let name = self.buffer[self.focus].name.clone();
        let name_len = name.as_str().unicode_len();
        self.anchor = grow_anchor(self.anchor, name_len, self.width);
        self.path.push(name);
        self.buffer = Vec::new();
        self.cursor = EntryCursor::dirs_first_cursor(children);
        proof {
            lemma_dirs_first_partitioned(entry_views(children@));
            lemma_dirs_first_len(entry_views(children@));
            assert(path_view(self.path@) =~= old(self)@.path.push(
                old(self)@.buffer[old(self)@.focus].name));
        }
        self.populate();
        proof {
            assert(self@ =~~= descend_spec(old(self)@, entry_views(children@)));
        }
        true
    }

    /// The parent path that `move_out` would list, or nothing when the
    /// browser is already at the root.
    pub fn move_out_target(&self) -> (r: Option<Vec<String>>)
        requires
            self.wf(),
        ensures
            match r {
                Option::Some(p) => self@.path.len() > 1 && path_view(p@)
                    == self@.path.drop_last(),
                Option::None => self@.path.len() == 1,
            },
    {
        if self.path.len() > 1 {
            let mut p = clone_path(&self.path);
            p.pop();
            proof {
                assert(path_view(p@) =~= path_view(self.path@).drop_last());
            }
            Option::Some(p)
        } else {
            Option::None
        }
    }

    /// Pop one segment from the current path, remembering the focused
    /// child for the directory being left and the directory itself for
    /// the parent, and rebuild the listing from `children`, the
    /// enumeration of the parent.  At the root the state is left
    /// unchanged and `false` is returned.
    pub fn move_out(&mut self, children: Vec<Entry>) -> (moved: bool)
        requires
            old(self).wf(),
            children@.len() + 0x1_0000 <= usize::MAX,
        ensures
            final(self).wf(),
            ({
                let s = old(self)@;
                if s.path.len() > 1 {
                    moved && final(self)@ == move_out_spec(s, entry_views(children@))
                } else {
                    !moved && final(self)@ == s
                }
            }),
    {
        if self.path.len() <= 1 {
            return false;
        }
        if self.buffer.len() > 0 {
            let key = clone_path(&self.path);
            let focused_entry = self.buffer[self.focus].clone();
            self.memory.insert(key, focused_entry);
        }
        let leaving = self.path.pop().unwrap();
        proof {
            assert(path_view(self.path@) =~= old(self)@.path.drop_last());
            assert(leaving@ == old(self)@.path.last());
        }
        let parent_key = clone_path(&self.path);
        self.memory.insert(parent_key, Entry { name: leaving, is_dir: true });
        self.anchor = anchor_for(&self.path, self.width);
        self.buffer = Vec::new();
        self.cursor = EntryCursor::dirs_first_cursor(children);
        proof {
            lemma_dirs_first_partitioned(entry_views(children@));
            lemma_dirs_first_len(entry_views(children@));
        }
        self.populate();
        proof {
            assert(self@ =~~= move_out_spec(old(self)@, entry_views(children@)));
        }
        true
    }
}

/// Round-trip: descending into the focused child and immediately moving
/// back out restores the original path, and the focus points at the same
/// child again, provided that child still occurs among the parent's
/// children on disk.
pub proof fn lemma_round_trip(s: NavView, inner: Seq<EntryV>, siblings: Seq<EntryV>)
    requires
        s.path.len() >= 1,
        s.buffer.len() > 0,
        0 <= s.focus < s.buffer.len(),
        s.buffer[s.focus].is_dir,
        s.height >= 0,
        dirs_first(siblings).contains(s.buffer[s.focus]),
    ensures
        ({
            let s1 = descend_spec(s, inner);
            let s2 = move_out_spec(s1, siblings);
            &&& s2.path == s.path
            &&& s2.buffer.len() > 0
            &&& 0 <= s2.focus < s2.buffer.len()
            &&& s2.buffer[s2.focus] == s.buffer[s.focus]
        }),
{
    let c = s.buffer[s.focus];
    let child = s.path.push(c.name);
    let s1 = descend_spec(s, inner);
    assert(s1.path == child);
    assert(s1.height == s.height);
    assert(child.drop_last() =~= s.path);
    assert(child.last() == c.name);
    let mem1 = if s1.buffer.len() > 0 {
        s1.memory.insert(s1.path, s1.buffer[s1.focus])
    } else {
        s1.memory
    };
    let rec = EntryV { name: c.name, is_dir: true };
    assert(rec == c);
    let mem2 = mem1.insert(s.path, rec);
    assert(mem2.contains_key(s.path) && mem2[s.path] == c);
    let pending = dirs_first(siblings);
    lemma_first_match_props(pending, c);
    if first_match(pending, c) < 0 {
        let idx = choose|idx: int| 0 <= idx < pending.len() && pending[idx] == c;
        assert(false);
    }
    let i = first_match(pending, c);
    let r = populate_spec(pending, s.path, mem2, s.height, s.height / 2);
    assert(r.focus == i);
    let filled = fill_spec(pending.take(i + 1), pending.skip(i + 1), i, s.height / 2);
    assert(r.buffer == filled.0);
    assert(r.buffer.len() >= i + 1);
    assert(r.buffer[i] == pending.take(i + 1)[i]);
    assert(r.buffer[i] == c);
    let s2 = move_out_spec(s1, siblings);
    assert(s2.buffer == r.buffer && s2.focus == r.focus);
    assert(s2.path == s.path);
}

/// With the parent's listing unchanged on disk — the old buffer is still
/// a prefix of the directories-first ordering, and no earlier sibling
/// structurally equals the focused child — the round trip restores the
/// focus index itself, not just the focused entry.
pub proof fn lemma_round_trip_same_index(s: NavView, inner: Seq<EntryV>, siblings: Seq<EntryV>)
    requires
        s.path.len() >= 1,
        s.buffer.len() > 0,
        0 <= s.focus < s.buffer.len(),
        s.buffer[s.focus].is_dir,
        s.height >= 0,
        s.buffer.len() <= dirs_first(siblings).len(),
        forall|j: int| 0 <= j < s.buffer.len() ==> dirs_first(siblings)[j] == s.buffer[j],
        forall|j: int| 0 <= j < s.focus ==> (#[trigger] s.buffer[j]) != s.buffer[s.focus],
    ensures
        ({
            let s2 = move_out_spec(descend_spec(s, inner), siblings);
            &&& s2.path == s.path
            &&& s2.focus == s.focus
            &&& 0 <= s2.focus < s2.buffer.len()
            &&& s2.buffer[s2.focus] == s.buffer[s.focus]
        }),
{
    let c = s.buffer[s.focus];
    let pending = dirs_first(siblings);
    assert(pending[s.focus] == c);
    assert forall|j: int| 0 <= j < s.focus implies pending[j] != c by {
        assert(pending[j] == s.buffer[j]);
    }
    lemma_first_match_at(pending, c, s.focus);
    assert(pending.contains(c));
    lemma_round_trip(s, inner, siblings);
    let s1 = descend_spec(s, inner);
    let mem1 = if s1.buffer.len() > 0 {
        s1.memory.insert(s1.path, s1.buffer[s1.focus])
    } else {
        s1.memory
    };
    let mem2 = mem1.insert(s.path.push(c.name).drop_last(),
        EntryV { name: s.path.push(c.name).last(), is_dir: true });
    assert(s.path.push(c.name).drop_last() =~= s.path);
    assert(mem2[s.path] == c);
    let s2 = move_out_spec(s1, siblings);
    assert(s2.focus == first_match(pending, c));
}

} // verus!
