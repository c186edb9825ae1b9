use std::collections::HashMap;
use std::marker::PhantomData;
use vstd::prelude::*;

use crate::assets::handle::Handle;
use vstd::std_specs::cmp::PartialEqSpec;

verus! {

broadcast use vstd::std_specs::hash::group_hash_axioms;

/// Unique association from asset paths to slot indices.
pub struct PathIndex {
    entries: Vec<(String, u32)>,
}

/// The index of the entry whose key is `p` (meaningful when some entry has that key).
pub open spec fn entry_index(entries: Seq<(String, u32)>, p: Seq<char>) -> int {
    choose|i: int| 0 <= i < entries.len() && entries[i].0@ == p
}

impl PathIndex {
    /// No path occurs twice.
    pub closed spec fn wf(&self) -> bool {
        forall|i: int, j: int|
            0 <= i < self.entries@.len() && 0 <= j < self.entries@.len() && i != j
                ==> self.entries@[i].0@ != self.entries@[j].0@
    }

    pub closed spec fn has(&self, p: Seq<char>) -> bool {
        exists|i: int| 0 <= i < self.entries@.len() && self.entries@[i].0@ == p
    }

    /// The path-to-index association as a map.
    pub closed spec fn view(&self) -> Map<Seq<char>, u32> {
        Map::new(|p: Seq<char>| self.has(p), |p: Seq<char>| self.entries@[entry_index(self.entries@, p)].1)
    }

    proof fn lemma_at(&self, i: int)
        requires
            self.wf(),
            0 <= i < self.entries@.len(),
        ensures
            self.view().contains_key(self.entries@[i].0@),
            self.view()[self.entries@[i].0@] == self.entries@[i].1,
    {
        let p = self.entries@[i].0@;
        assert(self.has(p));
        let k = entry_index(self.entries@, p);
        assert(0 <= k < self.entries@.len() && self.entries@[k].0@ == p);
    }

    pub fn new() -> (r: Self)
        ensures
            r.wf(),
            r.view() == Map::<Seq<char>, u32>::empty(),
    {
        let r = PathIndex { entries: Vec::new() };
        assert(r.view() =~= Map::<Seq<char>, u32>::empty());
        r
    }

    fn find(&self, path: &String) -> (r: Option<usize>)
        requires
            self.wf(),
        ensures
            match r {
                Some(i) => i < self.entries@.len() && self.entries@[i as int].0@ == path@,
                None => !self.has(path@),
            },
    {
        let mut i: usize = 0;
        while i < self.entries.len()
            invariant
                i <= self.entries@.len(),
                forall|j: int| 0 <= j < i ==> self.entries@[j].0@ != path@,
            decreases self.entries@.len() - i,
        {
            if self.entries[i].0 == *path {
                return Some(i);
            }
            i = i + 1;
        }
        None
    }

    /// The index registered under `path`, if any.
    pub fn get(&self, path: &String) -> (r: Option<u32>)
        requires
            self.wf(),
        ensures
            r == (if self.view().contains_key(path@) {
                Some(self.view()[path@])
            } else {
                None::<u32>
            }),
    {
        match self.find(path) {
            Some(i) => {
                proof {
                    self.lemma_at(i as int);
                }
                Some(self.entries[i].1)
            },
            None => None,
        }
    }

    /// Registers `path` under `index`, replacing a previous registration of the same path.
    pub fn insert(&mut self, path: String, index: u32)
        requires
            old(self).wf(),
        ensures
            final(self).wf(),
            final(self).view() == old(self).view().insert(path@, index),
    {
        let ghost p = path@;
        match self.find(&path) {
            Some(i) => {
                self.entries.set(i, (path, index));
                proof {
                    assert forall|q: Seq<char>|
                        #![auto]
                        self.has(q) == old(self).has(q) by {
                        if old(self).has(q) {
                            let k = choose|k: int|
                                0 <= k < old(self).entries@.len() && old(self).entries@[k].0@ == q;
                            assert(self.entries@[k].0@ == q);
                        }
                        if self.has(q) {
                            let k = choose|k: int|
                                0 <= k < self.entries@.len() && self.entries@[k].0@ == q;
                            assert(old(self).entries@[k].0@ == q);
                        }
                    }
                    assert forall|q: Seq<char>| #[trigger]
                        self.view().contains_key(q) implies self.view()[q] == old(self).view().insert(p, index)[q] by {
                        let k = choose|k: int|
                            0 <= k < self.entries@.len() && self.entries@[k].0@ == q;
                        self.lemma_at(k);
                        if q != p {
                            old(self).lemma_at(k);
                        }
                    }
                    assert(self.view() =~= old(self).view().insert(p, index));
                }
            },
            None => {
                self.entries.push((path, index));
                proof {
                    let n = old(self).entries@.len() as int;
                    assert forall|q: Seq<char>|
                        #![auto]
                        self.has(q) == (old(self).has(q) || q == p) by {
                        if old(self).has(q) {
                            let k = choose|k: int|
                                0 <= k < old(self).entries@.len() && old(self).entries@[k].0@ == q;
                            assert(self.entries@[k].0@ == q);
                        }
                        if q == p {
                            assert(self.entries@[n].0@ == q);
                        }
                        if self.has(q) && q != p {
                            let k = choose|k: int|
                                0 <= k < self.entries@.len() && self.entries@[k].0@ == q;
                            assert(k < n);
                            assert(old(self).entries@[k].0@ == q);
                        }
                    }
                    assert forall|q: Seq<char>| #[trigger]
                        self.view().contains_key(q) implies self.view()[q] == old(self).view().insert(p, index)[q] by {
                        let k = choose|k: int|
                            0 <= k < self.entries@.len() && self.entries@[k].0@ == q;
                        self.lemma_at(k);
                        if q != p {
                            assert(k < n);
                            old(self).lemma_at(k);
                        }
                    }
                    assert(self.view() =~= old(self).view().insert(p, index));
                }
            },
        }
    }

    /// Removes the registration of `path`, returning the index it was registered under.
    pub fn remove(&mut self, path: &String) -> (r: Option<u32>)
        requires
            old(self).wf(),
        ensures
            final(self).wf(),
            final(self).view() == old(self).view().remove(path@),
            r == (if old(self).view().contains_key(path@) {
                Some(old(self).view()[path@])
            } else {
                None::<u32>
            }),
    {
        let ghost p = path@;
        match self.find(path) {
            Some(i) => {
                proof {
                    old(self).lemma_at(i as int);
                }
                let (_, index) = self.entries.swap_remove(i);
                proof {
                    let n = old(self).entries@.len() as int;
                    let o = old(self).entries@;
                    assert forall|q: Seq<char>|
                        #![auto]
                        self.has(q) == (old(self).has(q) && q != p) by {
                        if old(self).has(q) && q != p {
                            let k = choose|k: int| 0 <= k < n && o[k].0@ == q;
                            let nk = if k == n - 1 { i as int } else { k };
                            assert(self.entries@[nk].0@ == q);
                        }
                        if self.has(q) {
                            let k = choose|k: int|
                                0 <= k < self.entries@.len() && self.entries@[k].0@ == q;
                            let ok = if k == i { n - 1 } else { k };
                            assert(o[ok].0@ == q);
                        }
                    }
                    assert forall|q: Seq<char>| #[trigger]
                        self.view().contains_key(q) implies self.view()[q] == old(self).view().remove(p)[q] by {
                        let k = choose|k: int|
                            0 <= k < self.entries@.len() && self.entries@[k].0@ == q;
                        self.lemma_at(k);
                        let ok = if k == i { n - 1 } else { k };
                        old(self).lemma_at(ok);
                    }
                    assert(self.view() =~= old(self).view().remove(p));
                }
                Some(index)
            },
            None => {
                assert(self.view() =~= old(self).view().remove(p));
                None
            },
        }
    }
}

/// One storage slot: the generation it is currently issued at and its value, if live.
pub struct Slot<T> {
    pub generation: u32,
    pub value: Option<T>,
}

/// Generational storage for assets of one type, also reachable through the path each was
/// registered under.
pub struct AssetMap<T> {
    /// The slot index via the path.
    pub(crate) by_path: PathIndex,
    /// The path via the slot index.
    pub(crate) by_slot: HashMap<u32, String>,
    slots: Vec<Slot<T>>,
    free_list: Vec<u32>,
}

/// `paths` without `p`, when `p` still refers to slot `i`.
pub open spec fn forget_path(paths: Map<Seq<char>, u32>, p: Seq<char>, i: u32) -> Map<Seq<char>, u32> {
    if paths.contains_key(p) && paths[p] == i {
        paths.remove(p)
    } else {
        paths
    }
}

/// The generation a slot moves to when its asset is removed.
pub open spec fn next_generation(g: u32) -> u32 {
    if g == u32::MAX {
        0
    } else {
        (g + 1) as u32
    }
}

impl<T> AssetMap<T> {
    /// The slots, in index order.
    pub closed spec fn slots(&self) -> Seq<Slot<T>> {
        self.slots@
    }

    /// Indices of free slots, in the order they will be reused (last first).
    pub closed spec fn free(&self) -> Seq<u32> {
        self.free_list@
    }

    /// Which slot each registered path refers to.
    pub closed spec fn paths(&self) -> Map<Seq<char>, u32> {
        self.by_path.view()
    }

    /// Which path each live slot was registered under.
    pub closed spec fn slot_paths(&self) -> Map<u32, Seq<char>> {
        self.by_slot@.map_values(|s: String| s@)
    }

    /// The asset a handle refers to: its slot's value when the generations agree.
    pub open spec fn spec_get(&self, h: Handle<T>) -> Option<T> {
        if h.index < self.slots().len() && self.slots()[h.index as int].generation == h.generation {
            self.slots()[h.index as int].value
        } else {
            None
        }
    }

    /// Whether slot `i` holds an asset.
    pub open spec fn is_live(&self, i: int) -> bool {
        0 <= i < self.slots().len() && self.slots()[i].value is Some
    }

    /// Number of slots holding an asset.
    pub open spec fn live_count(&self) -> nat {
        (self.slots().len() - self.free().len()) as nat
    }

    pub closed spec fn wf(&self) -> bool {
        &&& self.by_path.wf()
        &&& self.slots@.len() <= u32::MAX
        &&& forall|i: int, j: int|
            0 <= i < self.free_list@.len() && 0 <= j < self.free_list@.len() && i != j
                ==> self.free_list@[i] != self.free_list@[j]
        &&& forall|i: int|
            0 <= i < self.free_list@.len() ==> self.free_list@[i] < self.slots@.len()
        &&& forall|i: int|
            0 <= i < self.slots@.len() ==> (#[trigger] self.slots@[i].value is None
                <==> self.free_list@.contains(i as u32))
        &&& forall|i: u32| #[trigger]
            self.by_slot@.contains_key(i) <==> (i < self.slots@.len()
                && self.slots@[i as int].value is Some)
        &&& forall|p: Seq<char>| #[trigger]
            self.by_path.view().contains_key(p) ==> {
                let i = self.by_path.view()[p];
                self.by_slot@.contains_key(i) && self.by_slot@[i]@ == p
            }
        &&& vstd::std_specs::hash::obeys_key_model::<u32>()
    }

    pub proof fn lemma_wf(&self)
        requires
            self.wf(),
        ensures
            self.free().len() <= self.slots().len(),
            self.slots().len() <= u32::MAX,
            forall|i: int|
                0 <= i < self.free().len() ==> #[trigger] self.free()[i] < self.slots().len(),
            forall|i: int| 0 <= i < self.slots().len() ==> (#[trigger] self.is_live(i)
                <==> !self.free().contains(i as u32)),
            forall|p: Seq<char>| #[trigger]
                self.paths().contains_key(p) ==> self.is_live(self.paths()[p] as int)
                    && self.slot_paths().contains_key(self.paths()[p])
                    && self.slot_paths()[self.paths()[p]] == p,
            forall|i: u32| #[trigger]
                self.slot_paths().contains_key(i) <==> self.is_live(i as int),
    {
        self.lemma_free_len();
    }

    /// The live slot indices below `n`, in increasing order.
    pub open spec fn live_upto(&self, n: int) -> Seq<u32>
        decreases n,
    {
        if n <= 0 {
            Seq::empty()
        } else if self.is_live(n - 1) {
            self.live_upto(n - 1).push((n - 1) as u32)
        } else {
            self.live_upto(n - 1)
        }
    }

    /// Whether another asset can be added without exhausting 32-bit slot indices.
    pub open spec fn can_add(&self) -> bool {
        self.free().len() > 0 || self.slots().len() < u32::MAX
    }

    /// An empty map.
    pub fn new() -> (m: Self)
        ensures
            m.wf(),
            m.slots() == Seq::<Slot<T>>::empty(),
            m.free() == Seq::<u32>::empty(),
            m.paths() == Map::<Seq<char>, u32>::empty(),
            m.slot_paths() == Map::<u32, Seq<char>>::empty(),
    {
        let m = AssetMap {
            by_path: PathIndex::new(),
            by_slot: HashMap::new(),
            slots: Vec::new(),
            free_list: Vec::new(),
        };
        proof {
            assert(vstd::std_specs::hash::obeys_key_model::<u32>());
            assert(m.slot_paths() =~= Map::<u32, Seq<char>>::empty());
        }
        m
    }

    /// Stores `value` under `path`, reusing the most recently freed slot if there is one.
    pub fn add(&mut self, value: T, path: String) -> (h: Handle<T>)
        requires
            old(self).wf(),
            old(self).can_add(),
        ensures
            final(self).wf(),
            old(self).free().len() > 0 ==> {
                &&& h.index == old(self).free().last()
                &&& h.generation == old(self).slots()[h.index as int].generation
                &&& final(self).free() == old(self).free().drop_last()
                &&& final(self).slots() == old(self).slots().update(
                    h.index as int,
                    Slot { generation: h.generation, value: Some(value) },
                )
            },
            old(self).free().len() == 0 ==> {
                &&& h.index == old(self).slots().len()
                &&& h.generation == 0
                &&& final(self).free() == old(self).free()
                &&& final(self).slots() == old(self).slots().push(
                    Slot { generation: 0, value: Some(value) },
                )
            },
            final(self).paths() == old(self).paths().insert(path@, h.index),
            final(self).slot_paths() == old(self).slot_paths().insert(h.index, path@),
            final(self).spec_get(h) == Some(value),
            touches_only(*old(self), *final(self), h.index),
    {
        proof {
            self.lemma_wf();
        }
        let ghost p = path@;
        let index: u32;
        let generation: u32;
        if self.free_list.len() > 0 {
            let i = self.free_list.pop().unwrap();
            proof {
                assert(old(self).free_list@.contains(i));
                assert(!old(self).free_list@.drop_last().contains(i)) by {
                    if old(self).free_list@.drop_last().contains(i) {
                        let k = choose|k: int|
                            0 <= k < old(self).free_list@.len() - 1
                                && old(self).free_list@[k] == i;
                        assert(old(self).free_list@[old(self).free_list@.len() - 1] == i);
                    }
                }
            }
            index = i;
            generation = self.slots[i as usize].generation;
            self.slots.set(i as usize, Slot { generation, value: Some(value) });
        } else {
            index = self.slots.len() as u32;
            generation = 0;
            self.slots.push(Slot { generation: 0, value: Some(value) });
        }
        self.by_path.insert(path.clone(), index);
        self.by_slot.insert(index, path);
        let h = Handle { index, generation, _marker: PhantomData };
        proof {
            let o = old(self);
            assert forall|k: int| 0 <= k < self.free_list@.len() implies #[trigger] self.free_list@[k]
                < self.slots@.len() by {
                assert(self.free_list@[k] == o.free_list@[k]);
            }
            assert forall|k: int| 0 <= k < self.slots@.len() implies (#[trigger] self.slots@[k].value is None
                <==> self.free_list@.contains(k as u32)) by {
                if k != index {
                    assert(self.slots@[k] == o.slots@[k]);
                    if o.free_list@.contains(k as u32) {
                        let m = choose|m: int| 0 <= m < o.free_list@.len() && o.free_list@[m] == k as u32;
                        if m < self.free_list@.len() {
                            assert(self.free_list@[m] == k as u32);
                        }
                    }
                    if self.free_list@.contains(k as u32) {
                        let m = choose|m: int| 0 <= m < self.free_list@.len() && self.free_list@[m] == k as u32;
                        assert(o.free_list@[m] == k as u32);
                    }
                }
            }
            assert forall|k: u32| #[trigger]
                self.by_slot@.contains_key(k) <==> (k < self.slots@.len()
                    && self.slots@[k as int].value is Some) by {
                if k != index && k < o.slots@.len() {
                    assert(self.slots@[k as int] == o.slots@[k as int]);
                }
            }
            assert forall|q: Seq<char>| #[trigger]
                self.by_path.view().contains_key(q) implies {
                    let i = self.by_path.view()[q];
                    self.by_slot@.contains_key(i) && self.by_slot@[i]@ == q
                } by {
                if q != p {
                    let j = o.by_path.view()[q];
                    assert(o.by_slot@.contains_key(j));
                    assert(j != index);
                }
            }
            assert(self.slot_paths() =~= o.slot_paths().insert(index, p));
        }
        h
    }

    /// The asset `h` refers to, if it is still live.
    pub fn get(&self, h: Handle<T>) -> (r: Option<&T>)
        requires
            self.wf(),
        ensures
            match r {
                Some(v) => self.spec_get(h) == Some(*v),
                None => self.spec_get(h) is None,
            },
    {
        let i = h.index as usize;
        if i < self.slots.len() && self.slots[i].generation == h.generation {
            self.slots[i].value.as_ref()
        } else {
            None
        }
    }

    /// Mutable access to the asset `h` refers to, if it is still live.
    pub fn get_mut(&mut self, h: Handle<T>) -> (r: Option<&mut T>)
        requires
            old(self).wf(),
        ensures
            match r {
                Some(v) => {
                    &&& old(self).spec_get(h) == Some(*v)
                    &&& final(self).slots() == old(self).slots().update(
                        h.index as int,
                        Slot { generation: h.generation, value: Some(*final(v)) },
                    )
                    &&& final(self).free() == old(self).free()
                    &&& final(self).paths() == old(self).paths()
                    &&& final(self).slot_paths() == old(self).slot_paths()
                    &&& final(self).wf()
                },
                None => {
                    &&& old(self).spec_get(h) is None
                    &&& *final(self) == *old(self)
                },
            },
    {
        let i = h.index as usize;
        if i < self.slots.len() && self.slots[i].generation == h.generation
            && self.slots[i].value.is_some() {
            let slot = &mut self.slots[i];
            slot.value.as_mut()
        } else {
            None
        }
    }

    /// The handle of the asset registered under `path`.
    pub fn get_handle(&self, path: &str) -> (r: Option<Handle<T>>)
        requires
            self.wf(),
        ensures
            r == (if self.paths().contains_key(path@) {
                let i = self.paths()[path@];
                Some(
                    Handle::<T> {
                        index: i,
                        generation: self.slots()[i as int].generation,
                        _marker: PhantomData,
                    },
                )
            } else {
                None::<Handle<T>>
            }),
    {
        proof {
            self.lemma_wf();
        }
        let key = path.to_owned();
        match self.by_path.get(&key) {
            Some(index) => {
                proof {
                    assert(self.is_live(index as int));
                }
                Some(Handle { index, generation: self.slots[index as usize].generation, _marker: PhantomData })
            },
            None => None,
        }
    }

    /// The asset registered under `path`, skipping the intermediate handle.
    pub fn get_by_path(&self, path: &str) -> (r: Option<&T>)
        requires
            self.wf(),
        ensures
            match r {
                Some(v) => self.paths().contains_key(path@)
                    && self.slots()[self.paths()[path@] as int].value == Some(*v),
                None => !self.paths().contains_key(path@),
            },
    {
        proof {
            self.lemma_wf();
        }
        let key = path.to_owned();
        match self.by_path.get(&key) {
            Some(index) => self.slots[index as usize].value.as_ref(),
            None => None,
        }
    }

    /// The path the asset `h` refers to was registered under; `None` for a stale handle.
    pub fn path_of(&self, h: Handle<T>) -> (r: Option<&str>)
        requires
            self.wf(),
        ensures
            match r {
                Some(s) => self.spec_get(h) is Some && self.slot_paths()[h.index] == s@,
                None => self.spec_get(h) is None,
            },
    {
        proof {
            self.lemma_wf();
        }
        let i = h.index as usize;
        if i >= self.slots.len() || self.slots[i].generation != h.generation || self.slots[i].value.is_none() {
            return None;
        }
        match self.by_slot.get(&h.index) {
            Some(s) => Some(s.as_str()),
            None => None,
        }
    }

    /// Removes the asset `h` refers to: its slot moves to the next generation and is freed,
    /// and the path registered for the slot is forgotten unless it has since been registered
    /// for another asset.
    pub fn remove(&mut self, h: Handle<T>) -> (r: Option<T>)
        requires
            old(self).wf(),
        ensures
            final(self).wf(),
            r == old(self).spec_get(h),
            r is Some ==> {
                &&& final(self).slots() == old(self).slots().update(
                    h.index as int,
                    Slot { generation: next_generation(h.generation), value: None },
                )
                &&& final(self).free() == old(self).free().push(h.index)
                &&& final(self).slot_paths() == old(self).slot_paths().remove(h.index)
                &&& final(self).paths() == forget_path(
                    old(self).paths(),
                    old(self).slot_paths()[h.index],
                    h.index,
                )
            },
            r is None ==> *final(self) == *old(self),
            touches_only(*old(self), *final(self), h.index),
    {
        proof {
            self.lemma_wf();
        }
        let i = h.index as usize;
        if i >= self.slots.len() {
            return None;
        }
        let g = self.slots[i].generation;
        if g != h.generation || self.slots[i].value.is_none() {
            return None;
        }
        let new_generation = if g == u32::MAX { 0 } else { g + 1 };
        let mut taken = Slot { generation: new_generation, value: None };
        std::mem::swap(&mut self.slots[i], &mut taken);
        self.free_list.push(h.index);
        let ghost p = old(self).by_slot@[h.index]@;
        match self.by_slot.remove(&h.index) {
            Some(path) => {
                // The path may since have been registered again for another asset.
                match self.by_path.get(&path) {
                    Some(j) => {
                        if j == h.index {
                            self.by_path.remove(&path);
                        }
                    },
                    None => {},
                }
            },
            None => {},
        }
        proof {
            let o = old(self);
            assert(!o.free_list@.contains(h.index));
            assert forall|k: int| 0 <= k < self.slots@.len() implies (#[trigger] self.slots@[k].value is None
                <==> self.free_list@.contains(k as u32)) by {
                if k != i {
                    assert(self.slots@[k] == o.slots@[k]);
                    if o.free_list@.contains(k as u32) {
                        let m = choose|m: int| 0 <= m < o.free_list@.len() && o.free_list@[m] == k as u32;
                        assert(self.free_list@[m] == k as u32);
                    }
                    if self.free_list@.contains(k as u32) {
                        let m = choose|m: int| 0 <= m < self.free_list@.len() && self.free_list@[m] == k as u32;
                        assert(m < o.free_list@.len());
                        assert(o.free_list@[m] == k as u32);
                    }
                } else {
                    assert(self.free_list@[self.free_list@.len() - 1] == k as u32);
                }
            }
            assert forall|k: u32| #[trigger]
                self.by_slot@.contains_key(k) <==> (k < self.slots@.len()
                    && self.slots@[k as int].value is Some) by {
                if k != h.index && k < o.slots@.len() {
                    assert(self.slots@[k as int] == o.slots@[k as int]);
                }
            }
            assert forall|q: Seq<char>| #[trigger]
                self.by_path.view().contains_key(q) implies {
                    let j = self.by_path.view()[q];
                    self.by_slot@.contains_key(j) && self.by_slot@[j]@ == q
                } by {
                let j = o.by_path.view()[q];
                assert(o.by_slot@.contains_key(j));
            }
            assert(self.slot_paths() =~= o.slot_paths().remove(h.index));
        }
        taken.value
    }

    /// Whether `h` refers to a live asset.
    pub fn contains(&self, h: Handle<T>) -> (r: bool)
        requires
            self.wf(),
        ensures
            r == (self.spec_get(h) is Some),
    {
        self.get(h).is_some()
    }

    /// Number of live assets.
    pub fn len(&self) -> (n: usize)
        requires
            self.wf(),
        ensures
            n == self.live_count(),
    {
        proof {
            self.lemma_wf();
        }
        self.slots.len() - self.free_list.len()
    }

    /// Whether no asset is live.
    pub fn is_empty(&self) -> (r: bool)
        requires
            self.wf(),
        ensures
            r == (self.live_count() == 0),
    {
        self.len() == 0
    }

    /// Every live asset with its handle, in slot order.
    pub fn iter(&self) -> (r: Vec<(Handle<T>, &T)>)
        requires
            self.wf(),
        ensures
            r@.len() == self.live_upto(self.slots().len() as int).len(),
            r@.len() == self.live_count(),
            forall|k: int|
                0 <= k < r@.len() ==> {
                    let i = self.live_upto(self.slots().len() as int)[k];
                    &&& (#[trigger] r@[k]).0.index == i
                    &&& r@[k].0.generation == self.slots()[i as int].generation
                    &&& self.slots()[i as int].value == Some(*r@[k].1)
                },
    {
        let mut r: Vec<(Handle<T>, &T)> = Vec::new();
        let mut i: usize = 0;
        while i < self.slots.len()
            invariant
                self.wf(),
                i <= self.slots@.len(),
                r@.len() == self.live_upto(i as int).len(),
                forall|k: int|
                    0 <= k < r@.len() ==> {
                        let j = self.live_upto(i as int)[k];
                        &&& (#[trigger] r@[k]).0.index == j
                        &&& j < i
                        &&& r@[k].0.generation == self.slots()[j as int].generation
                        &&& self.slots()[j as int].value == Some(*r@[k].1)
                    },
            decreases self.slots@.len() - i,
        {
            let slot = &self.slots[i];
            match slot.value.as_ref() {
                Some(v) => {
                    r.push((Handle { index: i as u32, generation: slot.generation, _marker: PhantomData }, v));
                },
                None => {},
            }
            i = i + 1;
        }
        proof {
            self.lemma_live_count();
        }
        r
    }

    /// The empty slots below `n`.
    closed spec fn empty_below(&self, n: int) -> Set<u32> {
        Set::new(|i: u32| i < n && !self.is_live(i as int))
    }

    proof fn lemma_count_below(&self, n: int)
        requires
            0 <= n <= self.slots@.len(),
            self.slots@.len() <= u32::MAX,
        ensures
            self.empty_below(n).finite(),
            self.live_upto(n).len() + self.empty_below(n).len() == n,
        decreases n,
    {
        if n == 0 {
            assert(self.empty_below(0) =~= Set::<u32>::empty());
        } else {
            self.lemma_count_below(n - 1);
            let x = (n - 1) as u32;
            if self.is_live(n - 1) {
                assert(self.empty_below(n) =~= self.empty_below(n - 1));
            } else {
                assert(self.empty_below(n) =~= self.empty_below(n - 1).insert(x));
                assert(!self.empty_below(n - 1).contains(x));
            }
        }
    }

    /// The number of live assets is the number of slots holding one.
    pub proof fn lemma_live_count(&self)
        requires
            self.wf(),
        ensures
            self.live_upto(self.slots().len() as int).len() == self.live_count(),
    {
        let n = self.slots@.len() as int;
        self.lemma_count_below(n);
        let fs = self.free_list@.to_set();
        assert forall|x: u32| #[trigger] fs.contains(x) == self.empty_below(n).contains(x) by {
            if fs.contains(x) {
                let k = choose|k: int| 0 <= k < self.free_list@.len() && self.free_list@[k] == x;
                assert(self.free_list@[k] < self.slots@.len());
                assert(self.slots@[x as int].value is None);
            }
            if self.empty_below(n).contains(x) {
                assert(self.slots@[x as int].value is None);
                assert(self.free_list@.contains(x));
            }
        }
        assert(fs =~= self.empty_below(n));
        assert(self.free_list@.no_duplicates());
        self.free_list@.unique_seq_to_set();
    }

    proof fn lemma_free_len(&self)
        requires
            self.wf(),
        ensures
            self.free_list@.len() <= self.slots@.len(),
    {
        let n = self.slots@.len() as u32;
        let fs = self.free_list@.to_set();
        let r = Set::<u32>::range(0u32, n);
        <u32 as vstd::set_lib::FiniteRange>::range_properties(0u32, n);
        assert forall|x: u32| fs.contains(x) implies r.contains(x) by {
            let k = choose|k: int| 0 <= k < self.free_list@.len() && self.free_list@[k] == x;
        }
        vstd::set_lib::lemma_len_subset(fs, r);
        assert(self.free_list@.no_duplicates());
        self.free_list@.unique_seq_to_set();
    }
}

impl<T> Default for AssetMap<T> {
    fn default() -> (m: Self)
        ensures
            m.wf(),
            m.slots() == Seq::<Slot<T>>::empty(),
            m.free() == Seq::<u32>::empty(),
            m.paths() == Map::<Seq<char>, u32>::empty(),
            m.slot_paths() == Map::<u32, Seq<char>>::empty(),
    {
        Self::new()
    }
}

/// Once its asset is removed, a handle no longer resolves.
pub proof fn lemma_removed_handle_is_stale<T>(before: AssetMap<T>, after: AssetMap<T>, h: Handle<T>)
    requires
        before.spec_get(h) is Some,
        after.slots() == before.slots().update(
            h.index as int,
            Slot { generation: next_generation(h.generation), value: None },
        ),
    ensures
        after.spec_get(h) is None,
{
}

/// A removed asset's handle stays stale when its slot is reused: the next asset added lands
/// in that slot under a different generation, so the old handle does not resolve to it.
pub proof fn lemma_reused_slot_new_generation<T>(
    before: AssetMap<T>,
    removed: AssetMap<T>,
    after: AssetMap<T>,
    h: Handle<T>,
    h2: Handle<T>,
    value: T,
)
    requires
        before.wf(),
        before.spec_get(h) is Some,
        removed.slots() == before.slots().update(
            h.index as int,
            Slot { generation: next_generation(h.generation), value: None },
        ),
        removed.free() == before.free().push(h.index),
        h2.index == removed.free().last(),
        h2.generation == removed.slots()[h2.index as int].generation,
        after.slots() == removed.slots().update(
            h2.index as int,
            Slot { generation: h2.generation, value: Some(value) },
        ),
    ensures
        h2.index == h.index,
        h2.generation != h.generation,
        !h2.eq_spec(&h),
        !h.eq_spec(&h2),
        after.spec_get(h) is None,
        after.spec_get(h2) == Some(value),
{
}

/// An operation that changes at most one slot (as `add`, `get_mut` and `remove` do) leaves
/// every handle of another slot resolving as before; so, over any run of such operations,
/// a handle resolves to what the last operation on its own slot left there.
pub proof fn lemma_other_slots_unaffected<T>(before: AssetMap<T>, after: AssetMap<T>, touched: u32, h: Handle<T>)
    requires
        touches_only(before, after, touched),
        h.index != touched,
    ensures
        after.spec_get(h) == before.spec_get(h),
{
    if h.index < after.slots().len() {
        assert(after.slots()[h.index as int] == before.slots()[h.index as int]);
    }
}

/// `after` differs from `before` at most in slot `touched` (which may be new).
pub open spec fn touches_only<T>(before: AssetMap<T>, after: AssetMap<T>, touched: u32) -> bool {
    &&& before.slots().len() <= after.slots().len()
    &&& forall|i: int|
        0 <= i < after.slots().len() && i != touched ==> i < before.slots().len()
            && #[trigger] after.slots()[i] == before.slots()[i]
}

/// Over any run of operations that each touch one slot, a handle whose slot none of them
/// touched resolves at the end as it did at the start.
pub proof fn lemma_untouched_handle_history<T>(ms: Seq<AssetMap<T>>, touched: Seq<u32>, h: Handle<T>)
    requires
        ms.len() == touched.len() + 1,
        forall|k: int| 0 <= k < touched.len() ==> #[trigger] touches_only(ms[k], ms[k + 1], touched[k]),
        forall|k: int| 0 <= k < touched.len() ==> #[trigger] touched[k] != h.index,
    ensures
        ms.last().spec_get(h) == ms[0].spec_get(h),
    decreases touched.len(),
{
    if touched.len() > 0 {
        let n = touched.len() as int;
        let ms0 = ms.drop_last();
        let t0 = touched.drop_last();
        assert forall|k: int| 0 <= k < t0.len() implies #[trigger] touches_only(ms0[k], ms0[k + 1], t0[k]) by {
            assert(touches_only(ms[k], ms[k + 1], touched[k]));
        }
        assert forall|k: int| 0 <= k < t0.len() implies #[trigger] t0[k] != h.index by {
            assert(touched[k] != h.index);
        }
        lemma_untouched_handle_history(ms0, t0, h);
        assert(touches_only(ms[n - 1], ms[n], touched[n - 1]));
        assert(touched[n - 1] != h.index);
        lemma_other_slots_unaffected(ms[n - 1], ms[n], touched[n - 1], h);
    }
}

/// A dangling handle never refers to a live asset: no map has a slot at the largest index.
pub proof fn lemma_dangling_is_stale<T>(m: AssetMap<T>, h: Handle<T>)
    requires
        m.wf(),
        h.index == u32::MAX,
    ensures
        m.spec_get(h) is None,
{
    m.lemma_wf();
}

} // verus!
