//! The registry of fcitx5 input contexts handed out to clients.

use vstd::prelude::*;

use crate::text::{append_decimal, decimal, lemma_decimal_injective};

verus! {

/// What the broker remembers about one input context.
#[derive(Clone, Copy, Debug, PartialEq, Eq)]
pub struct IcState {
    pub uuid: [u8; 16],
    pub focused: bool,
    pub capability: u64,
    pub cursor_rect: Option<[i32; 4]>,
}

struct IcEntry {
    id: u64,
    path: String,
    state: IcState,
}

/// Input contexts by object path. Each context gets the path
/// `/org/freedesktop/portal/inputcontext/N` for a fresh `N`.
pub struct IcRegistry {
    next_id: u64,
    entries: Vec<IcEntry>,
}

pub open spec fn ic_path_prefix() -> Seq<char> {
    "/org/freedesktop/portal/inputcontext/"@
}

/// The object path of the input context numbered `id`.
pub open spec fn ic_path(id: nat) -> Seq<char> {
    ic_path_prefix() + decimal(id)
}

/// Byte `k` of `id`, least significant first.
pub open spec fn id_byte(id: nat, k: nat) -> u8
    decreases k,
{
    if k == 0 {
        (id % 256) as u8
    } else {
        id_byte(id / 256, (k - 1) as nat)
    }
}

/// The UUID of the context numbered `id`: `id` in little-endian order,
/// then eight zero bytes.
pub open spec fn ic_uuid(id: nat) -> Seq<u8> {
    Seq::new(16, |k: int| if k < 8 { id_byte(id, k as nat) } else { 0u8 })
}

/// The state a context starts in: not focused, no capability, no cursor.
pub open spec fn is_fresh_state(s: IcState, id: nat) -> bool {
    &&& s.uuid@ == ic_uuid(id)
    &&& !s.focused
    &&& s.capability == 0
    &&& s.cursor_rect is None
}

spec fn entries_map(s: Seq<IcEntry>) -> Map<Seq<char>, IcState>
    decreases s.len(),
{
    if s.len() == 0 {
        Map::empty()
    } else {
        entries_map(s.drop_last()).insert(s.last().path@, s.last().state)
    }
}

proof fn lemma_map_finite(s: Seq<IcEntry>)
    ensures
        entries_map(s).dom().finite(),
    decreases s.len(),
{
    if s.len() > 0 {
        lemma_map_finite(s.drop_last());
    }
}

spec fn distinct_paths(s: Seq<IcEntry>) -> bool {
    forall|i: int, j: int|
        0 <= i < s.len() && 0 <= j < s.len() && i != j ==> #[trigger] s[i].path@ != #[trigger] s[j].path@
}

proof fn lemma_map_lookup(s: Seq<IcEntry>, p: Seq<char>)
    requires
        distinct_paths(s),
    ensures
        entries_map(s).contains_key(p) <==> exists|i: int| 0 <= i < s.len() && #[trigger] s[i].path@ == p,
        forall|i: int| 0 <= i < s.len() && #[trigger] s[i].path@ == p ==> entries_map(s)[p] == s[i].state,
    decreases s.len(),
{
    if s.len() > 0 {
        let t = s.drop_last();
        assert(distinct_paths(t)) by {
            assert forall|i: int, j: int|
                0 <= i < t.len() && 0 <= j < t.len() && i != j implies #[trigger] t[i].path@ != #[trigger] t[j].path@ by {
                assert(t[i] == s[i] && t[j] == s[j]);
            }
        }
        lemma_map_lookup(t, p);
        let n = s.len() - 1;
        if s.last().path@ == p {
            assert(s[n].path@ == p);
            assert forall|i: int| 0 <= i < s.len() && #[trigger] s[i].path@ == p implies entries_map(s)[p] == s[i].state by {
                if i != n {
                    assert(s[i].path@ != s[n].path@);
                }
            }
        } else {
            if entries_map(s).contains_key(p) {
                let i = choose|i: int| 0 <= i < t.len() && #[trigger] t[i].path@ == p;
                assert(s[i] == t[i]);
            }
            if exists|i: int| 0 <= i < s.len() && #[trigger] s[i].path@ == p {
                let i = choose|i: int| 0 <= i < s.len() && #[trigger] s[i].path@ == p;
                assert(i != n);
                assert(t[i] == s[i]);
            }
            assert forall|i: int| 0 <= i < s.len() && #[trigger] s[i].path@ == p implies entries_map(s)[p] == s[i].state by {
                assert(i != n);
                assert(t[i] == s[i]);
            }
        }
    }
}

proof fn lemma_map_update(s: Seq<IcEntry>, i: int, e: IcEntry)
    requires
        distinct_paths(s),
        0 <= i < s.len(),
        e.path@ == s[i].path@,
    ensures
        entries_map(s.update(i, e)) == entries_map(s).insert(e.path@, e.state),
    decreases s.len(),
{
    let n = s.len() - 1;
    let t = s.drop_last();
    if i == n {
        assert(s.update(i, e).drop_last() =~= t);
        assert(entries_map(s.update(i, e)) =~= entries_map(s).insert(e.path@, e.state));
    } else {
        assert(distinct_paths(t)) by {
            assert forall|a: int, b: int|
                0 <= a < t.len() && 0 <= b < t.len() && a != b implies #[trigger] t[a].path@ != #[trigger] t[b].path@ by {
                assert(t[a] == s[a] && t[b] == s[b]);
            }
        }
        assert(s.update(i, e).drop_last() =~= t.update(i, e));
        lemma_map_update(t, i, e);
        assert(s[i].path@ != s[n].path@);
        assert(s.update(i, e).last() == s.last());
        assert(entries_map(s.update(i, e)) =~= entries_map(s).insert(e.path@, e.state));
    }
}

proof fn lemma_map_remove(s: Seq<IcEntry>, i: int)
    requires
        distinct_paths(s),
        0 <= i < s.len(),
    ensures
        entries_map(s.remove(i)) == entries_map(s).remove(s[i].path@),
        distinct_paths(s.remove(i)),
    decreases s.len(),
{
    let n = s.len() - 1;
    let t = s.drop_last();
    assert(distinct_paths(t)) by {
        assert forall|a: int, b: int|
            0 <= a < t.len() && 0 <= b < t.len() && a != b implies #[trigger] t[a].path@ != #[trigger] t[b].path@ by {
            assert(t[a] == s[a] && t[b] == s[b]);
        }
    }
    assert(distinct_paths(s.remove(i))) by {
        let r = s.remove(i);
        assert forall|a: int, b: int|
            0 <= a < r.len() && 0 <= b < r.len() && a != b implies #[trigger] r[a].path@ != #[trigger] r[b].path@ by {
            let a2 = if a < i { a } else { a + 1 };
            let b2 = if b < i { b } else { b + 1 };
            assert(r[a] == s[a2] && r[b] == s[b2]);
        }
    }
    if i == n {
        assert(s.remove(i) =~= t);
        lemma_map_lookup(t, s[n].path@);
        if entries_map(t).contains_key(s[n].path@) {
            let j = choose|j: int| 0 <= j < t.len() && #[trigger] t[j].path@ == s[n].path@;
            assert(t[j] == s[j]);
        }
        assert(entries_map(s.remove(i)) =~= entries_map(s).remove(s[i].path@));
    } else {
        assert(s.remove(i) =~= t.remove(i).push(s.last()));
        assert(s.remove(i).drop_last() =~= t.remove(i));
        lemma_map_remove(t, i);
        assert(t[i] == s[i]);
        assert(s[i].path@ != s[n].path@);
        assert(entries_map(s.remove(i)) =~= entries_map(s).remove(s[i].path@));
    }
}

proof fn lemma_map_len(s: Seq<IcEntry>)
    requires
        distinct_paths(s),
    ensures
        entries_map(s).dom().finite(),
        entries_map(s).dom().len() == s.len(),
    decreases s.len(),
{
    if s.len() > 0 {
        let t = s.drop_last();
        let n = s.len() - 1;
        assert(distinct_paths(t)) by {
            assert forall|a: int, b: int|
                0 <= a < t.len() && 0 <= b < t.len() && a != b implies #[trigger] t[a].path@ != #[trigger] t[b].path@ by {
                assert(t[a] == s[a] && t[b] == s[b]);
            }
        }
        lemma_map_len(t);
        lemma_map_lookup(t, s[n].path@);
        if entries_map(t).contains_key(s[n].path@) {
            let j = choose|j: int| 0 <= j < t.len() && #[trigger] t[j].path@ == s[n].path@;
            assert(t[j] == s[j]);
        }
    }
}

proof fn lemma_ic_path_injective(a: nat, b: nat)
    requires
        ic_path(a) == ic_path(b),
    ensures
        a == b,
{
    let k = ic_path_prefix().len() as int;
    assert(ic_path(a).subrange(k, ic_path(a).len() as int) =~= decimal(a));
    assert(ic_path(b).subrange(k, ic_path(b).len() as int) =~= decimal(b));
    lemma_decimal_injective(a, b);
}

impl View for IcRegistry {
    type V = Map<Seq<char>, IcState>;

    closed spec fn view(&self) -> Map<Seq<char>, IcState> {
        entries_map(self.entries@)
    }
}

impl IcRegistry {
    #[verifier::type_invariant]
    spec fn wf(self) -> bool {
        &&& forall|i: int|
            0 <= i < self.entries@.len() ==> {
                &&& 1 <= (#[trigger] self.entries@[i]).id <= self.next_id
                &&& self.entries@[i].path@ == ic_path(self.entries@[i].id as nat)
            }
        &&& forall|i: int, j: int|
            0 <= i < self.entries@.len() && 0 <= j < self.entries@.len() && i != j
                ==> #[trigger] self.entries@[i].id != #[trigger] self.entries@[j].id
    }

    /// The number of contexts allocated so far.
    pub closed spec fn allocated(&self) -> nat {
        self.next_id as nat
    }

    proof fn lemma_distinct(&self)
        requires
            self.wf(),
        ensures
            distinct_paths(self.entries@),
    {
        let s = self.entries@;
        assert forall|i: int, j: int|
            0 <= i < s.len() && 0 <= j < s.len() && i != j implies #[trigger] s[i].path@ != #[trigger] s[j].path@ by {
            if s[i].path@ == s[j].path@ {
                lemma_ic_path_injective(s[i].id as nat, s[j].id as nat);
            }
        }
    }

    pub fn new() -> (r: Self)
        ensures
            r@ == Map::<Seq<char>, IcState>::empty(),
            r.allocated() == 0,
    {
        IcRegistry { next_id: 0, entries: Vec::new() }
    }

    /// Whether another context can be numbered.
    pub fn can_allocate(&self) -> (b: bool)
        ensures
            b == (self.allocated() < u64::MAX),
    {
        self.next_id < u64::MAX
    }

    /// A registry holds finitely many contexts.
    pub proof fn lemma_finite(&self)
        ensures
            self@.dom().finite(),
    {
        lemma_map_finite(self.entries@);
    }

    /// The number of live contexts.
    pub fn len(&self) -> (n: usize)
        ensures
            self@.dom().finite(),
            n == self@.len(),
    {
        proof {
            use_type_invariant(self);
            self.lemma_distinct();
            lemma_map_len(self.entries@);
        }
        self.entries.len()
    }

    fn find(&self, path: &String) -> (r: Option<usize>)
        ensures
            match r {
                Some(i) => i < self.entries@.len() && self.entries@[i as int].path@ == path@,
                None => forall|i: int| 0 <= i < self.entries@.len() ==> #[trigger] self.entries@[i].path@ != path@,
            },
    {
        let mut i: usize = 0;
        while i < self.entries.len()
            invariant
                i <= self.entries@.len(),
                forall|k: int| 0 <= k < i ==> #[trigger] self.entries@[k].path@ != path@,
            decreases self.entries@.len() - i,
        {
            if self.entries[i].path == *path {
                return Some(i);
            }
            i = i + 1;
        }
        None
    }

    /// Hands out a new input context: returns its object path and its
    /// initial state.
    pub fn allocate(&mut self) -> (r: (String, IcState))
        requires
            old(self).allocated() < u64::MAX,
        ensures
            r.0@ == ic_path(old(self).allocated() + 1),
            is_fresh_state(r.1, old(self).allocated() + 1),
            !old(self)@.contains_key(r.0@),
            final(self)@ == old(self)@.insert(r.0@, r.1),
            final(self).allocated() == old(self).allocated() + 1,
    {
        proof {
            use_type_invariant(&*self);
            self.lemma_distinct();
        }
        let id = self.next_id + 1;
        let mut path = "/org/freedesktop/portal/inputcontext/".to_owned();
        append_decimal(&mut path, id);
        let b0 = (id % 256) as u8;
        let r1 = id / 256;
        let b1 = (r1 % 256) as u8;
        let r2 = r1 / 256;
        let b2 = (r2 % 256) as u8;
        let r3 = r2 / 256;
        let b3 = (r3 % 256) as u8;
        let r4 = r3 / 256;
        let b4 = (r4 % 256) as u8;
        let r5 = r4 / 256;
        let b5 = (r5 % 256) as u8;
        let r6 = r5 / 256;
        let b6 = (r6 % 256) as u8;
        let r7 = r6 / 256;
        let b7 = (r7 % 256) as u8;
        let uuid: [u8; 16] = [b0, b1, b2, b3, b4, b5, b6, b7, 0, 0, 0, 0, 0, 0, 0, 0];
        proof {
            reveal_with_fuel(id_byte, 8);
            assert(uuid@ =~= ic_uuid(id as nat));
        }
        let state = IcState { uuid, focused: false, capability: 0, cursor_rect: None };
        let ghost old_entries = self.entries@;
        proof {
            lemma_map_lookup(old_entries, path@);
            if exists|i: int| 0 <= i < old_entries.len() && #[trigger] old_entries[i].path@ == path@ {
                let i = choose|i: int| 0 <= i < old_entries.len() && #[trigger] old_entries[i].path@ == path@;
                lemma_ic_path_injective(old_entries[i].id as nat, id as nat);
            }
        }
        let result_path = path.clone();
        let mut entries: Vec<IcEntry> = Vec::new();
        std::mem::swap(&mut entries, &mut self.entries);
        entries.push(IcEntry { id, path, state });
        proof {
            assert(entries@.drop_last() =~= old_entries);
        }
        self.next_id = id;
        self.entries = entries;
        (result_path, state)
    }

    /// Frees the context at `path`, returning its last state.
    pub fn destroy(&mut self, path: &String) -> (r: Option<IcState>)
        ensures
            final(self)@ == old(self)@.remove(path@),
            r == (if old(self)@.contains_key(path@) {
                Some(old(self)@[path@])
            } else {
                None::<IcState>
            }),
            final(self).allocated() == old(self).allocated(),
    {
        proof {
            use_type_invariant(&*self);
            self.lemma_distinct();
            lemma_map_lookup(self.entries@, path@);
        }
        match self.find(path) {
            None => {
                assert(self@ =~= old(self)@.remove(path@));
                None
            },
            Some(i) => {
                let ghost old_entries = self.entries@;
                proof {
                    lemma_map_remove(old_entries, i as int);
                }
                let mut entries: Vec<IcEntry> = Vec::new();
                std::mem::swap(&mut entries, &mut self.entries);
                let e = entries.remove(i);
                proof {
                    assert forall|k: int| 0 <= k < entries@.len() implies 1 <= (#[trigger] entries@[k]).id
                        <= self.next_id && entries@[k].path@ == ic_path(entries@[k].id as nat) by {
                        let k2 = if k < i { k } else { k + 1 };
                        assert(entries@[k] == old_entries[k2]);
                    }
                    assert forall|a: int, b: int|
                        0 <= a < entries@.len() && 0 <= b < entries@.len() && a != b implies #[trigger] entries@[a].id
                        != #[trigger] entries@[b].id by {
                        let a2 = if a < i { a } else { a + 1 };
                        let b2 = if b < i { b } else { b + 1 };
                        assert(entries@[a] == old_entries[a2] && entries@[b] == old_entries[b2]);
                    }
                }
                self.entries = entries;
                Some(e.state)
            },
        }
    }

    /// The state of the context at `path`, if it is live.
    pub fn get(&self, path: &String) -> (r: Option<&IcState>)
        ensures
            match r {
                Some(s) => self@.contains_key(path@) && *s == self@[path@],
                None => !self@.contains_key(path@),
            },
    {
        proof {
            use_type_invariant(self);
            self.lemma_distinct();
            lemma_map_lookup(self.entries@, path@);
        }
        match self.find(path) {
            None => None,
            Some(i) => Some(&self.entries[i].state),
        }
    }

    fn replace_state(&mut self, i: usize, state: IcState)
        requires
            i < old(self).entries@.len(),
        ensures
            final(self)@ == old(self)@.insert(old(self).entries@[i as int].path@, state),
            final(self).allocated() == old(self).allocated(),
            final(self).entries@.len() == old(self).entries@.len(),
    {
        proof {
            use_type_invariant(&*self);
            self.lemma_distinct();
        }
        let ghost old_entries = self.entries@;
        let id = self.entries[i].id;
        let path = self.entries[i].path.clone();
        let ghost e = IcEntry { id, path, state };
        proof {
            lemma_map_update(old_entries, i as int, e);
        }
        let mut entries: Vec<IcEntry> = Vec::new();
        std::mem::swap(&mut entries, &mut self.entries);
        entries.set(i, IcEntry { id, path, state });
        assert(entries@ =~= old_entries.update(i as int, e));
        self.entries = entries;
    }

    /// Records whether the context at `path` has focus; returns whether it
    /// was live.
    pub fn set_focused(&mut self, path: &String, focused: bool) -> (found: bool)
        ensures
            found == old(self)@.contains_key(path@),
            final(self)@ == (if found {
                old(self)@.insert(path@, IcState { focused, ..old(self)@[path@] })
            } else {
                old(self)@
            }),
            final(self).allocated() == old(self).allocated(),
    {
        proof {
            use_type_invariant(&*self);
            self.lemma_distinct();
            lemma_map_lookup(self.entries@, path@);
        }
        match self.find(path) {
            None => false,
            Some(i) => {
                let s = self.entries[i].state;
                self.replace_state(i, IcState { focused, ..s });
                true
            },
        }
    }

    /// Records the capability flags of the context at `path`.
    pub fn set_capability(&mut self, path: &String, capability: u64) -> (found: bool)
        ensures
            found == old(self)@.contains_key(path@),
            final(self)@ == (if found {
                old(self)@.insert(path@, IcState { capability, ..old(self)@[path@] })
            } else {
                old(self)@
            }),
            final(self).allocated() == old(self).allocated(),
    {
        proof {
            use_type_invariant(&*self);
            self.lemma_distinct();
            lemma_map_lookup(self.entries@, path@);
        }
        match self.find(path) {
            None => false,
            Some(i) => {
                let s = self.entries[i].state;
                self.replace_state(i, IcState { capability, ..s });
                true
            },
        }
    }

    /// Records the cursor rectangle of the context at `path`.
    pub fn set_cursor_rect(&mut self, path: &String, rect: Option<[i32; 4]>) -> (found: bool)
        ensures
            found == old(self)@.contains_key(path@),
            final(self)@ == (if found {
                old(self)@.insert(path@, IcState { cursor_rect: rect, ..old(self)@[path@] })
            } else {
                old(self)@
            }),
            final(self).allocated() == old(self).allocated(),
    {
        proof {
            use_type_invariant(&*self);
            self.lemma_distinct();
            lemma_map_lookup(self.entries@, path@);
        }
        match self.find(path) {
            None => false,
            Some(i) => {
                let s = self.entries[i].state;
                self.replace_state(i, IcState { cursor_rect: rect, ..s });
                true
            },
        }
    }
}


/// Destroying a context right after allocating it leaves the registry as
/// it was.
pub proof fn lemma_allocate_then_destroy(reg: Map<Seq<char>, IcState>, path: Seq<char>, state: IcState)
    requires
        !reg.contains_key(path),
    ensures
        reg.insert(path, state).remove(path) == reg,
{
    assert(reg.insert(path, state).remove(path) =~= reg);
}

} // verus!
