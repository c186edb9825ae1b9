use vstd::prelude::*;

verus! {

/// Identifier of a resource type (stands for the type's `TypeId`).
pub type ResourceTypeId = u64;

/// At most one resource value per resource type.
pub struct ResourceMap<R> {
    entries: Vec<(ResourceTypeId, R)>,
}

/// Why a resource could not be handed out.
#[derive(Clone, Copy, Debug, PartialEq, Eq, Structural)]
pub enum ResourceError {
    /// No resource of the requested type is in the world.
    Missing(ResourceTypeId),
}

pub open spec fn resource_index<R>(entries: Seq<(ResourceTypeId, R)>, t: ResourceTypeId) -> int {
    choose|i: int| 0 <= i < entries.len() && entries[i].0 == t
}

impl<R> ResourceMap<R> {
    pub closed spec fn wf(&self) -> bool {
        forall|i: int, j: int|
            0 <= i < self.entries@.len() && 0 <= j < self.entries@.len() && i != j
                ==> self.entries@[i].0 != self.entries@[j].0
    }

    closed spec fn has(&self, t: ResourceTypeId) -> bool {
        exists|i: int| 0 <= i < self.entries@.len() && self.entries@[i].0 == t
    }

    /// The resources, by type.
    pub closed spec fn view(&self) -> Map<ResourceTypeId, R> {
        Map::new(
            |t: ResourceTypeId| self.has(t),
            |t: ResourceTypeId| self.entries@[resource_index(self.entries@, t)].1,
        )
    }

    proof fn lemma_at(&self, i: int)
        requires
            self.wf(),
            0 <= i < self.entries@.len(),
        ensures
            self.view().contains_key(self.entries@[i].0),
            self.view()[self.entries@[i].0] == self.entries@[i].1,
    {
        let t = self.entries@[i].0;
        assert(self.has(t));
        let k = resource_index(self.entries@, t);
        assert(0 <= k < self.entries@.len() && self.entries@[k].0 == t);
    }

    pub fn new() -> (m: Self)
        ensures
            m.wf(),
            m.view() == Map::<ResourceTypeId, R>::empty(),
    {
        let m = ResourceMap { entries: Vec::new() };
        assert(m.view() =~= Map::<ResourceTypeId, R>::empty());
        m
    }

    fn find(&self, t: ResourceTypeId) -> (r: Option<usize>)
        requires
            self.wf(),
        ensures
            match r {
                Some(i) => i < self.entries@.len() && self.entries@[i as int].0 == t,
                None => !self.has(t),
            },
    {
        let mut i: usize = 0;
        while i < self.entries.len()
            invariant
                i <= self.entries@.len(),
                forall|j: int| 0 <= j < i ==> self.entries@[j].0 != t,
            decreases self.entries@.len() - i,
        {
            if self.entries[i].0 == t {
                return Some(i);
            }
            i = i + 1;
        }
        None
    }

    /// Whether a resource of type `t` is present.
    pub fn contains(&self, t: ResourceTypeId) -> (r: bool)
        requires
            self.wf(),
        ensures
            r == self.view().contains_key(t),
    {
        self.find(t).is_some()
    }

    /// Stores `value` as the resource of type `t`, replacing any previous one.
    pub fn insert(&mut self, t: ResourceTypeId, value: R)
        requires
            old(self).wf(),
        ensures
            final(self).wf(),
            final(self).view() == old(self).view().insert(t, value),
    {
        match self.find(t) {
            Some(i) => {
                self.entries.set(i, (t, value));
                proof {
                    assert forall|q: ResourceTypeId| #![auto] self.has(q) == old(self).has(q) by {
                        if old(self).has(q) {
                            let k = choose|k: int|
                                0 <= k < old(self).entries@.len() && old(self).entries@[k].0 == q;
                            assert(self.entries@[k].0 == q);
                        }
                        if self.has(q) {
                            let k = choose|k: int|
                                0 <= k < self.entries@.len() && self.entries@[k].0 == q;
                            assert(old(self).entries@[k].0 == q);
                        }
                    }
                    assert forall|q: ResourceTypeId| #[trigger]
                        self.view().contains_key(q) implies self.view()[q] == old(
                        self,
                    ).view().insert(t, value)[q] by {
                        let k = choose|k: int|
                            0 <= k < self.entries@.len() && self.entries@[k].0 == q;
                        self.lemma_at(k);
                        if q != t {
                            old(self).lemma_at(k);
                        }
                    }
                    assert(self.view() =~= old(self).view().insert(t, value));
                }
            },
            None => {
                self.entries.push((t, value));
                proof {
                    let n = old(self).entries@.len() as int;
                    assert forall|q: ResourceTypeId| #![auto] self.has(q) == (old(self).has(q) || q == t) by {
                        if old(self).has(q) {
                            let k = choose|k: int|
                                0 <= k < old(self).entries@.len() && old(self).entries@[k].0 == q;
                            assert(self.entries@[k].0 == q);
                        }
                        if q == t {
                            assert(self.entries@[n].0 == q);
                        }
                        if self.has(q) && q != t {
                            let k = choose|k: int|
                                0 <= k < self.entries@.len() && self.entries@[k].0 == q;
                            assert(old(self).entries@[k].0 == q);
                        }
                    }
                    assert forall|q: ResourceTypeId| #[trigger]
                        self.view().contains_key(q) implies self.view()[q] == old(
                        self,
                    ).view().insert(t, value)[q] by {
                        let k = choose|k: int|
                            0 <= k < self.entries@.len() && self.entries@[k].0 == q;
                        self.lemma_at(k);
                        if q != t {
                            old(self).lemma_at(k);
                        }
                    }
                    assert(self.view() =~= old(self).view().insert(t, value));
                }
            },
        }
    }

    /// Removes the resource of type `t`, if present.
    pub fn remove(&mut self, t: ResourceTypeId) -> (r: Option<R>)
        requires
            old(self).wf(),
        ensures
            final(self).wf(),
            final(self).view() == old(self).view().remove(t),
            r == (if old(self).view().contains_key(t) {
                Some(old(self).view()[t])
            } else {
                None::<R>
            }),
    {
        match self.find(t) {
            Some(i) => {
                proof {
                    old(self).lemma_at(i as int);
                }
                let (_, value) = self.entries.swap_remove(i);
                proof {
                    let n = old(self).entries@.len() as int;
                    let o = old(self).entries@;
                    assert forall|q: ResourceTypeId| #![auto] self.has(q) == (old(self).has(q) && q != t) by {
                        if old(self).has(q) && q != t {
                            let k = choose|k: int| 0 <= k < n && o[k].0 == q;
                            let nk = if k == n - 1 { i as int } else { k };
                            assert(self.entries@[nk].0 == q);
                        }
                        if self.has(q) {
                            let k = choose|k: int|
                                0 <= k < self.entries@.len() && self.entries@[k].0 == q;
                            let ok = if k == i { n - 1 } else { k };
                            assert(o[ok].0 == q);
                        }
                    }
                    assert forall|q: ResourceTypeId| #[trigger]
                        self.view().contains_key(q) implies self.view()[q] == old(
                        self,
                    ).view().remove(t)[q] by {
                        let k = choose|k: int|
                            0 <= k < self.entries@.len() && self.entries@[k].0 == q;
                        self.lemma_at(k);
                        let ok = if k == i { n - 1 } else { k };
                        old(self).lemma_at(ok);
                    }
                    assert(self.view() =~= old(self).view().remove(t));
                }
                Some(value)
            },
            None => {
                assert(self.view() =~= old(self).view().remove(t));
                None
            },
        }
    }

    /// The resource of type `t`.
    pub fn get(&self, t: ResourceTypeId) -> (r: Result<&R, ResourceError>)
        requires
            self.wf(),
        ensures
            match r {
                Ok(v) => self.view().contains_key(t) && self.view()[t] == *v,
                Err(e) => !self.view().contains_key(t) && e == ResourceError::Missing(t),
            },
    {
        match self.find(t) {
            Some(i) => {
                proof {
                    self.lemma_at(i as int);
                }
                Ok(&self.entries[i].1)
            },
            None => Err(ResourceError::Missing(t)),
        }
    }

    /// `b` is `a` with the resource of type `t` overwritten by `v`.
    pub closed spec fn updated(a: Self, b: Self, t: ResourceTypeId, v: R) -> bool {
        exists|i: int|
            0 <= i < a.entries@.len() && a.entries@[i].0 == t && b.entries@ == a.entries@.update(
                i,
                (t, v),
            )
    }

    /// What an update through [`ResourceMap::get_mut`] amounts to.
    pub proof fn lemma_updated(a: Self, b: Self, t: ResourceTypeId, v: R)
        requires
            a.wf(),
            Self::updated(a, b, t, v),
        ensures
            b.wf(),
            b.view() == a.view().insert(t, v),
    {
        let i = choose|i: int|
            0 <= i < a.entries@.len() && a.entries@[i].0 == t && b.entries@ == a.entries@.update(
                i,
                (t, v),
            );
        assert forall|q: ResourceTypeId| #![auto] b.has(q) == a.has(q) by {
            if a.has(q) {
                let k = choose|k: int| 0 <= k < a.entries@.len() && a.entries@[k].0 == q;
                assert(b.entries@[k].0 == q);
            }
            if b.has(q) {
                let k = choose|k: int| 0 <= k < b.entries@.len() && b.entries@[k].0 == q;
                assert(a.entries@[k].0 == q);
            }
        }
        assert forall|q: ResourceTypeId| #[trigger]
            b.view().contains_key(q) implies b.view()[q] == a.view().insert(t, v)[q] by {
            let k = choose|k: int| 0 <= k < b.entries@.len() && b.entries@[k].0 == q;
            b.lemma_at(k);
            if q != t {
                a.lemma_at(k);
            }
        }
        assert(b.view() =~= a.view().insert(t, v));
    }

    /// Mutable access to the resource of type `t`.
    pub fn get_mut(&mut self, t: ResourceTypeId) -> (r: Result<&mut R, ResourceError>)
        requires
            old(self).wf(),
        ensures
            match r {
                Ok(v) => {
                    &&& old(self).view().contains_key(t)
                    &&& old(self).view()[t] == *v
                    &&& Self::updated(*old(self), *final(self), t, *final(v))
                },
                Err(e) => {
                    &&& !old(self).view().contains_key(t)
                    &&& e == ResourceError::Missing(t)
                    &&& *final(self) == *old(self)
                },
            },
    {
        match self.find(t) {
            Some(i) => {
                proof {
                    self.lemma_at(i as int);
                }
                let entry = &mut self.entries[i];
                Ok(&mut entry.1)
            },
            None => Err(ResourceError::Missing(t)),
        }
    }
}

} // verus!
