//! The embedded application windows the compositor tracks. The window
//! handle type `W` is the compositor's; this module keeps the id
//! bookkeeping and asks the caller the questions only the handle can
//! answer (is it alive, does it show a given surface).

use std::collections::HashMap;

use vstd::prelude::*;
use vstd::std_specs::iter::IteratorSpec;

use crate::geometry::Rect;

verus! {

broadcast use vstd::std_specs::hash::group_hash_axioms;

/// An embedded application window.
pub struct AppWindow<W> {
    pub window_id: u64,
    pub window: W,
    /// Geometry (logical px) assigned by the editor; `None` until then.
    pub geometry: Option<Rect>,
    pub visible: bool,
}

/// All live application windows, by id.
pub struct AppManager<W> {
    windows: HashMap<u64, AppWindow<W>>,
    next_id: u64,
}

impl<W> View for AppManager<W> {
    type V = Map<u64, AppWindow<W>>;

    closed spec fn view(&self) -> Map<u64, AppWindow<W>> {
        self.windows@
    }
}

impl<W> Default for AppManager<W> {
    fn default() -> (r: Self)
        ensures
            r@ == Map::<u64, AppWindow<W>>::empty(),
            r.last_id() == 0,
            r.wf(),
    {
        Self::new()
    }
}

impl<W> AppManager<W> {
    /// The last id handed out (0 before the first).
    pub closed spec fn last_id(&self) -> u64 {
        self.next_id
    }

    /// Every window is filed under its own id.
    pub open spec fn wf(&self) -> bool {
        forall|k: u64| #[trigger] self@.contains_key(k) ==> self@[k].window_id == k
    }

    pub fn new() -> (r: Self)
        ensures
            r@ == Map::<u64, AppWindow<W>>::empty(),
            r.last_id() == 0,
            r.wf(),
    {
        AppManager { windows: HashMap::new(), next_id: 0 }
    }

    /// Hands out the next window id: 1, 2, 3, ...
    pub fn alloc_id(&mut self) -> (id: u64)
        requires
            old(self).last_id() < u64::MAX,
        ensures
            id == old(self).last_id() + 1,
            final(self).last_id() == id,
            final(self)@ == old(self)@,
    {
        self.next_id = self.next_id + 1;
        self.next_id
    }

    /// Files `app` under its id, replacing any window with that id.
    pub fn insert(&mut self, app: AppWindow<W>)
        requires
            old(self).wf(),
        ensures
            final(self).wf(),
            final(self)@ == old(self)@.insert(app.window_id, app),
            final(self).last_id() == old(self).last_id(),
    {
        let id = app.window_id;
        self.windows.insert(id, app);
    }

    /// Takes the window with `window_id` out, if there is one.
    pub fn remove(&mut self, window_id: u64) -> (r: Option<AppWindow<W>>)
        requires
            old(self).wf(),
        ensures
            final(self).wf(),
            final(self)@ == old(self)@.remove(window_id),
            r == (if old(self)@.contains_key(window_id) {
                Some(old(self)@[window_id])
            } else {
                None::<AppWindow<W>>
            }),
            final(self).last_id() == old(self).last_id(),
    {
        self.windows.remove(&window_id)
    }

    /// The window with `window_id`, if there is one.
    pub fn get(&self, window_id: u64) -> (r: Option<&AppWindow<W>>)
        ensures
            match r {
                Some(w) => self@.contains_key(window_id) && *w == self@[window_id],
                None => !self@.contains_key(window_id),
            },
    {
        self.windows.get(&window_id)
    }

    /// Sets the geometry of the window with `window_id`; returns whether
    /// there is one.
    pub fn set_geometry(&mut self, window_id: u64, geometry: Option<Rect>) -> (found: bool)
        requires
            old(self).wf(),
        ensures
            final(self).wf(),
            found == old(self)@.contains_key(window_id),
            final(self)@ == (if found {
                old(self)@.insert(window_id, AppWindow { geometry, ..old(self)@[window_id] })
            } else {
                old(self)@
            }),
            final(self).last_id() == old(self).last_id(),
    {
        match self.windows.remove(&window_id) {
            None => false,
            Some(w) => {
                let w2 = AppWindow { geometry, ..w };
                self.windows.insert(window_id, w2);
                assert(self@ =~= old(self)@.insert(window_id, AppWindow { geometry, ..old(self)@[window_id] }));
                true
            },
        }
    }

    /// Shows or hides the window with `window_id`; returns whether there
    /// is one.
    pub fn set_visible(&mut self, window_id: u64, visible: bool) -> (found: bool)
        requires
            old(self).wf(),
        ensures
            final(self).wf(),
            found == old(self)@.contains_key(window_id),
            final(self)@ == (if found {
                old(self)@.insert(window_id, AppWindow { visible, ..old(self)@[window_id] })
            } else {
                old(self)@
            }),
            final(self).last_id() == old(self).last_id(),
    {
        match self.windows.remove(&window_id) {
            None => false,
            Some(w) => {
                let w2 = AppWindow { visible, ..w };
                self.windows.insert(window_id, w2);
                assert(self@ =~= old(self)@.insert(window_id, AppWindow { visible, ..old(self)@[window_id] }));
                true
            },
        }
    }

    /// The ids of all windows, each once, in no particular order.
    pub fn window_ids(&self) -> (ids: Vec<u64>)
        ensures
            ids@.to_set() == self@.dom(),
            ids@.no_duplicates(),
    {
        let mut ids: Vec<u64> = Vec::new();
        let ghost all = vstd::std_specs::hash::spec_keys_iter(&self.windows).remaining();
        for k in it: self.windows.keys()
            invariant
                it.seq() == all,
                ids@.len() == it.index(),
                forall|i: int| 0 <= i < it.index() ==> ids@[i] == *it.seq()[i],
        {
            ids.push(*k);
        }
        proof {
            assert(ids@ =~= all.map_values(|k: &u64| *k));
            assert(all.unref() =~= all.map_values(|k: &u64| *k));
        }
        ids
    }

    /// References to all windows, each once, in no particular order.
    pub fn windows(&self) -> (r: Vec<&AppWindow<W>>)
        requires
            self.wf(),
        ensures
            r@.len() == self@.len(),
            forall|i: int|
                0 <= i < r@.len() ==> self@.contains_key((#[trigger] r@[i]).window_id) && *r@[i]
                    == self@[r@[i].window_id],
            forall|k: u64| #[trigger] self@.contains_key(k) ==> exists|i: int| 0 <= i < r@.len() && (#[trigger] r@[i]).window_id == k,
    {
        let ids = self.window_ids();
        proof {
            ids@.unique_seq_to_set();
        }
        let mut r: Vec<&AppWindow<W>> = Vec::new();
        let mut i: usize = 0;
        while i < ids.len()
            invariant
                self.wf(),
                i <= ids@.len(),
                ids@.to_set() == self@.dom(),
                r@.len() == i,
                forall|j: int| 0 <= j < i ==> (#[trigger] r@[j]).window_id == ids@[j] && self@.contains_key(ids@[j])
                    && *r@[j] == self@[ids@[j]],
            decreases ids@.len() - i,
        {
            assert(ids@.to_set().contains(ids@[i as int]));
            let w = self.windows.get(&ids[i]).unwrap();
            r.push(w);
            i = i + 1;
        }
        assert forall|k: u64| #[trigger] self@.contains_key(k) implies exists|i: int| 0 <= i < r@.len() && (#[trigger] r@[i]).window_id == k by {
            assert(ids@.to_set().contains(k));
            let j = choose|j: int| 0 <= j < ids@.len() && ids@[j] == k;
            assert(r@[j].window_id == k);
        }
        r
    }

    /// The id of a window for which `shows_surface` answers `true`, or
    /// `None` when it answers `false` for every window.
    pub fn id_for_surface(&self, shows_surface: impl Fn(&W) -> bool) -> (r: Option<u64>)
        requires
            forall|w: &W| #[trigger] shows_surface.requires((w,)),
        ensures
            match r {
                Some(id) => self@.contains_key(id) && shows_surface.ensures((&self@[id].window,), true),
                None => forall|k: u64| #[trigger] self@.contains_key(k) ==> shows_surface.ensures((&self@[k].window,), false),
            },
    {
        let ids = self.window_ids();
        let mut i: usize = 0;
        while i < ids.len()
            invariant
                forall|w: &W| #[trigger] shows_surface.requires((w,)),
                i <= ids@.len(),
                ids@.to_set() == self@.dom(),
                forall|j: int| 0 <= j < i ==> shows_surface.ensures((&self@[#[trigger] ids@[j]].window,), false),
            decreases ids@.len() - i,
        {
            assert(ids@.to_set().contains(ids@[i as int]));
            let w = self.windows.get(&ids[i]).unwrap();
            if shows_surface(&w.window) {
                return Some(ids[i]);
            }
            i = i + 1;
        }
        assert forall|k: u64| #[trigger] self@.contains_key(k) implies shows_surface.ensures((&self@[k].window,), false) by {
            assert(ids@.to_set().contains(k));
            let j = choose|j: int| 0 <= j < ids@.len() && ids@[j] == k;
            assert(shows_surface.ensures((&self@[ids@[j]].window,), false));
        }
        None
    }

    /// Takes out and returns every window for which `alive` answers
    /// `false`; the windows for which it answers `true` stay.
    pub fn drain_dead(&mut self, alive: impl Fn(&W) -> bool) -> (dead: Vec<AppWindow<W>>)
        requires
            old(self).wf(),
            forall|w: &W| #[trigger] alive.requires((w,)),
        ensures
            final(self).wf(),
            final(self).last_id() == old(self).last_id(),
            forall|k: u64|
                #[trigger] final(self)@.contains_key(k) ==> old(self)@.contains_key(k) && final(self)@[k]
                    == old(self)@[k] && alive.ensures((&old(self)@[k].window,), true),
            forall|k: u64|
                #[trigger] old(self)@.contains_key(k) && !final(self)@.contains_key(k) ==> alive.ensures(
                    (&old(self)@[k].window,),
                    false,
                ) && exists|i: int| 0 <= i < dead@.len() && (#[trigger] dead@[i]).window_id == k,
            forall|i: int|
                0 <= i < dead@.len() ==> old(self)@.contains_key((#[trigger] dead@[i]).window_id)
                    && !final(self)@.contains_key(dead@[i].window_id) && dead@[i] == old(self)@[dead@[i].window_id],
            forall|i: int, j: int|
                0 <= i < j < dead@.len() ==> (#[trigger] dead@[i]).window_id != (#[trigger] dead@[j]).window_id,
    {
        let ghost start = self@;
        let ids = self.window_ids();
        let mut dead_ids: Vec<u64> = Vec::new();
        let mut i: usize = 0;
        while i < ids.len()
            invariant
                self@ == start,
                forall|w: &W| #[trigger] alive.requires((w,)),
                i <= ids@.len(),
                ids@.to_set() == start.dom(),
                ids@.no_duplicates(),
                forall|m: int| 0 <= m < dead_ids@.len() ==> exists|j: int| 0 <= j < i && ids@[j] == #[trigger] dead_ids@[m],
                dead_ids@.no_duplicates(),
                forall|m: int| 0 <= m < dead_ids@.len() ==> start.contains_key(#[trigger] dead_ids@[m])
                    && alive.ensures((&start[dead_ids@[m]].window,), false),
                forall|j: int| 0 <= j < i && !dead_ids@.contains(#[trigger] ids@[j]) ==> alive.ensures(
                    (&start[ids@[j]].window,),
                    true,
                ),
            decreases ids@.len() - i,
        {
            let id = ids[i];
            assert(ids@.to_set().contains(id));
            let w = self.windows.get(&id).unwrap();
            let is_alive = alive(&w.window);
            if !is_alive {
                proof {
                    if dead_ids@.contains(id) {
                        let m = choose|m: int| 0 <= m < dead_ids@.len() && dead_ids@[m] == id;
                        let j = choose|j: int| 0 <= j < i && ids@[j] == dead_ids@[m];
                        assert(ids@[j] == ids@[i as int]);
                    }
                }
                let ghost prev = dead_ids@;
                dead_ids.push(id);
                proof {
                    assert forall|j: int| 0 <= j < i + 1 && !dead_ids@.contains(#[trigger] ids@[j]) implies alive.ensures(
                        (&start[ids@[j]].window,),
                        true,
                    ) by {
                        if j < i {
                            if prev.contains(ids@[j]) {
                                let m = choose|m: int| 0 <= m < prev.len() && prev[m] == ids@[j];
                                assert(dead_ids@[m] == prev[m]);
                            }
                        } else {
                            assert(dead_ids@[dead_ids@.len() - 1] == ids@[j]);
                        }
                    }
                    assert forall|m: int| 0 <= m < dead_ids@.len() implies exists|j: int| 0 <= j < i + 1 && ids@[j] == #[trigger] dead_ids@[m] by {
                        if m == dead_ids@.len() - 1 {
                            assert(ids@[i as int] == dead_ids@[m]);
                        } else {
                            assert(dead_ids@[m] == dead_ids@.drop_last()[m]);
                        }
                    }
                }
            }
            i = i + 1;
        }
        let mut dead: Vec<AppWindow<W>> = Vec::new();
        let mut m: usize = 0;
        while m < dead_ids.len()
            invariant
                self.last_id() == old(self).last_id(),
                m <= dead_ids@.len(),
                dead_ids@.no_duplicates(),
                forall|n: int| 0 <= n < dead_ids@.len() ==> start.contains_key(#[trigger] dead_ids@[n]),
                forall|k: u64| #[trigger] start.contains_key(k) ==> start[k].window_id == k,
                self@ == start.remove_keys(dead_ids@.subrange(0, m as int).to_set()),
                dead@.len() == m,
                forall|n: int| 0 <= n < m ==> #[trigger] dead@[n] == start[dead_ids@[n]],
            decreases dead_ids@.len() - m,
        {
            let id = dead_ids[m];
            assert(!dead_ids@.subrange(0, m as int).contains(id));
            assert(self@.contains_key(id));
            let w = self.windows.remove(&id).unwrap();
            dead.push(w);
            assert(dead_ids@.subrange(0, m + 1) =~= dead_ids@.subrange(0, m as int).push(id));
            proof {
                dead_ids@.subrange(0, m as int).lemma_push_to_set_commute(id);
            }
            assert(self@ =~= start.remove_keys(dead_ids@.subrange(0, m + 1).to_set()));
            m = m + 1;
        }
        assert(dead_ids@.subrange(0, dead_ids@.len() as int) =~= dead_ids@);
        proof {
            assert forall|k: u64| #[trigger] start.contains_key(k) && !self@.contains_key(k) implies alive.ensures(
                (&start[k].window,),
                false,
            ) && exists|i: int| 0 <= i < dead@.len() && (#[trigger] dead@[i]).window_id == k by {
                assert(dead_ids@.to_set().contains(k));
                let n = choose|n: int| 0 <= n < dead_ids@.len() && dead_ids@[n] == k;
                assert(dead@[n].window_id == k);
            }
            assert forall|k: u64| #[trigger] self@.contains_key(k) implies start.contains_key(k) && self@[k]
                == start[k] && alive.ensures((&start[k].window,), true) by {
                assert(!dead_ids@.to_set().contains(k));
                assert(ids@.to_set().contains(k));
                let j = choose|j: int| 0 <= j < ids@.len() && ids@[j] == k;
                assert(!dead_ids@.contains(ids@[j]));
            }
            assert forall|a: int, b: int| 0 <= a < b < dead@.len() implies (#[trigger] dead@[a]).window_id
                != (#[trigger] dead@[b]).window_id by {
                assert(dead@[a].window_id == dead_ids@[a]);
                assert(dead@[b].window_id == dead_ids@[b]);
            }
        }
        dead
    }
}

} // verus!
