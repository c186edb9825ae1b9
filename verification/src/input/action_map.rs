use vstd::prelude::*;

use crate::input::action::{differs_from, ActionBinding, BindingView, InputSource};

verus! {

/// Action bindings by action name; no name occurs twice.
pub struct ActionMap {
    entries: Vec<(String, ActionBinding)>,
}

/// Whether some entry is named `name`.
pub open spec fn names(entries: Seq<(String, ActionBinding)>, name: Seq<char>) -> bool {
    exists|i: int| 0 <= i < entries.len() && entries[i].0@ == name
}

/// The position of the entry named `name` (meaningful when there is one).
pub open spec fn named_at(entries: Seq<(String, ActionBinding)>, name: Seq<char>) -> int {
    choose|i: int| 0 <= i < entries.len() && entries[i].0@ == name
}

impl ActionMap {
    /// No name occurs twice.
    pub closed spec fn wf(&self) -> bool {
        forall|i: int, j: int|
            0 <= i < self.entries@.len() && 0 <= j < self.entries@.len() && i != j
                ==> self.entries@[i].0@ != self.entries@[j].0@
    }

    /// The bindings by action name.
    pub closed spec fn view(&self) -> Map<Seq<char>, BindingView> {
        Map::new(
            |n: Seq<char>| names(self.entries@, n),
            |n: Seq<char>| self.entries@[named_at(self.entries@, n)].1@,
        )
    }

    /// The names, in the order they were first bound.
    pub closed spec fn order(&self) -> Seq<Seq<char>> {
        self.entries@.map_values(|e: (String, ActionBinding)| e.0@)
    }

    proof fn lemma_at(&self, i: int)
        requires
            self.wf(),
            0 <= i < self.entries@.len(),
        ensures
            self@.contains_key(self.entries@[i].0@),
            self@[self.entries@[i].0@] == self.entries@[i].1@,
    {
        let n = self.entries@[i].0@;
        assert(names(self.entries@, n));
        let k = named_at(self.entries@, n);
        assert(0 <= k < self.entries@.len() && self.entries@[k].0@ == n);
    }

    /// A map with no binding.
    pub fn new() -> (m: Self)
        ensures
            m.wf(),
            m@ == Map::<Seq<char>, BindingView>::empty(),
            m.order() == Seq::<Seq<char>>::empty(),
    {
        let m = ActionMap { entries: Vec::new() };
        assert(m@ =~= Map::<Seq<char>, BindingView>::empty());
        assert(m.order() =~= Seq::<Seq<char>>::empty());
        m
    }

    fn find(&self, name: &String) -> (r: Option<usize>)
        ensures
            match r {
                Some(i) => i < self.entries@.len() && self.entries@[i as int].0@ == name@,
                None => !names(self.entries@, name@),
            },
    {
        let mut i: usize = 0;
        while i < self.entries.len()
            invariant
                i <= self.entries@.len(),
                forall|j: int| 0 <= j < i ==> self.entries@[j].0@ != name@,
            decreases self.entries@.len() - i,
        {
            if self.entries[i].0 == *name {
                return Some(i);
            }
            i = i + 1;
        }
        None
    }

    /// The binding of `name`, if it is bound.
    pub fn get(&self, name: &str) -> (r: Option<&ActionBinding>)
        requires
            self.wf(),
        ensures
            match r {
                Some(b) => self@.contains_key(name@) && self@[name@] == b@,
                None => !self@.contains_key(name@),
            },
    {
        let key = name.to_owned();
        match self.find(&key) {
            Some(i) => {
                proof {
                    self.lemma_at(i as int);
                }
                Some(&self.entries[i].1)
            },
            None => None,
        }
    }

    /// Whether `name` is bound.
    pub fn contains_key(&self, name: &str) -> (r: bool)
        requires
            self.wf(),
        ensures
            r == self@.contains_key(name@),
    {
        self.get(name).is_some()
    }

    /// Replaces the entry at `i` by `binding` under the same name.
    fn set_at(&mut self, i: usize, binding: ActionBinding)
        requires
            old(self).wf(),
            i < old(self).entries@.len(),
        ensures
            final(self).wf(),
            final(self)@ == old(self)@.insert(old(self).entries@[i as int].0@, binding@),
            final(self).order() == old(self).order(),
    {
        let name = self.entries[i].0.clone();
        let ghost n = name@;
        self.entries.set(i, (name, binding));
        proof {
            let o = old(self).entries@;
            let e = self.entries@;
            assert forall|q: Seq<char>| #![auto] names(e, q) == names(o, q) by {
                if names(o, q) {
                    let k = choose|k: int| 0 <= k < o.len() && o[k].0@ == q;
                    assert(e[k].0@ == q);
                }
                if names(e, q) {
                    let k = choose|k: int| 0 <= k < e.len() && e[k].0@ == q;
                    assert(o[k].0@ == q);
                }
            }
            assert forall|q: Seq<char>| #[trigger] self@.contains_key(q) implies self@[q]
                == old(self)@.insert(n, binding@)[q] by {
                let k = choose|k: int| 0 <= k < e.len() && e[k].0@ == q;
                self.lemma_at(k);
                if q != n {
                    assert(k != i);
                    old(self).lemma_at(k);
                }
            }
            assert(self@ =~= old(self)@.insert(n, binding@));
            assert(self.order() =~= old(self).order());
        }
    }

    /// Binds `name` to `binding`, replacing any previous binding.
    pub fn insert(&mut self, name: String, binding: ActionBinding)
        requires
            old(self).wf(),
        ensures
            final(self).wf(),
            final(self)@ == old(self)@.insert(name@, binding@),
    {
        match self.find(&name) {
            Some(i) => {
                self.set_at(i, binding);
            },
            None => {
                let ghost n = name@;
                let ghost bv = binding@;
                self.entries.push((name, binding));
                proof {
                    let o = old(self).entries@;
                    let e = self.entries@;
                    assert forall|q: Seq<char>| #![auto] names(e, q) == (names(o, q) || q == n) by {
                        if names(o, q) {
                            let k = choose|k: int| 0 <= k < o.len() && o[k].0@ == q;
                            assert(e[k].0@ == q);
                        }
                        if names(e, q) && q != n {
                            let k = choose|k: int| 0 <= k < e.len() && e[k].0@ == q;
                            assert(k != o.len());
                            assert(o[k].0@ == q);
                        }
                        if q == n {
                            assert(e[o.len() as int].0@ == q);
                        }
                    }
                    assert forall|q: Seq<char>| #[trigger] self@.contains_key(q) implies self@[q]
                        == old(self)@.insert(n, bv)[q] by {
                        let k = choose|k: int| 0 <= k < e.len() && e[k].0@ == q;
                        self.lemma_at(k);
                        if q != n {
                            assert(k != o.len());
                            old(self).lemma_at(k);
                        } else {
                            self.lemma_at(o.len() as int);
                        }
                    }
                    assert(self@ =~= old(self)@.insert(n, bv));
                }
            },
        }
    }

    /// Binds `name` to `binding` unless it is bound already.
    pub fn insert_if_absent(&mut self, name: String, binding: ActionBinding)
        requires
            old(self).wf(),
        ensures
            final(self).wf(),
            final(self)@ == (if old(self)@.contains_key(name@) {
                old(self)@
            } else {
                old(self)@.insert(name@, binding@)
            }),
    {
        match self.find(&name) {
            Some(i) => {
                proof {
                    self.lemma_at(i as int);
                }
            },
            None => {
                self.insert(name, binding);
            },
        }
    }

    /// Removes the binding of `name`, returning it.
    pub fn remove(&mut self, name: &str) -> (r: Option<ActionBinding>)
        requires
            old(self).wf(),
        ensures
            final(self).wf(),
            final(self)@ == old(self)@.remove(name@),
            match r {
                Some(b) => old(self)@.contains_key(name@) && old(self)@[name@] == b@,
                None => !old(self)@.contains_key(name@),
            },
    {
        let key = name.to_owned();
        match self.find(&key) {
            Some(i) => {
                proof {
                    self.lemma_at(i as int);
                }
                let ghost o = self.entries@;
                let (_, b) = self.entries.remove(i);
                proof {
                    let e = self.entries@;
                    assert(e == o.remove(i as int));
                    assert forall|q: Seq<char>| #![auto] names(e, q) == (names(o, q) && q != name@) by {
                        if names(o, q) && q != name@ {
                            let k = choose|k: int| 0 <= k < o.len() && o[k].0@ == q;
                            assert(k != i);
                            if k < i {
                                assert(e[k].0@ == q);
                            } else {
                                assert(e[k - 1].0@ == q);
                            }
                        }
                        if names(e, q) {
                            let k = choose|k: int| 0 <= k < e.len() && e[k].0@ == q;
                            if k < i {
                                assert(o[k].0@ == q);
                            } else {
                                assert(o[k + 1].0@ == q);
                            }
                        }
                    }
                    assert forall|a: int, c: int|
                        0 <= a < e.len() && 0 <= c < e.len() && a != c implies e[a].0@ != e[c].0@ by {
                        let a2 = if a < i { a } else { a + 1 };
                        let c2 = if c < i { c } else { c + 1 };
                        assert(e[a] == o[a2]);
                        assert(e[c] == o[c2]);
                    }
                    assert forall|q: Seq<char>| #[trigger] self@.contains_key(q) implies self@[q]
                        == old(self)@.remove(name@)[q] by {
                        let k = choose|k: int| 0 <= k < e.len() && e[k].0@ == q;
                        self.lemma_at(k);
                        let k2 = if k < i { k } else { k + 1 };
                        assert(o[k2] == e[k]);
                        old(self).lemma_at(k2);
                    }
                    assert(self@ =~= old(self)@.remove(name@));
                }
                Some(b)
            },
            None => {
                assert(old(self)@.remove(name@) =~= old(self)@);
                None
            },
        }
    }

    /// Adds `source` to the positive side of `name`'s binding, binding it first if needed.
    pub fn push_positive(&mut self, name: String, source: InputSource)
        requires
            old(self).wf(),
        ensures
            final(self).wf(),
            final(self)@ == old(self)@.insert(
                name@,
                (if old(self)@.contains_key(name@) {
                    BindingView {
                        positive: old(self)@[name@].positive.push(source),
                        negative: old(self)@[name@].negative,
                    }
                } else {
                    BindingView { positive: seq![source], negative: Seq::empty() }
                }),
            ),
    {
        match self.find(&name) {
            Some(i) => {
                proof {
                    self.lemma_at(i as int);
                }
                let mut b = self.entries[i].1.duplicate();
                b.bind(source);
                self.set_at(i, b);
            },
            None => {
                let b = ActionBinding::new().with_positive(source);
                assert(b@.positive =~= seq![source]);
                self.insert(name, b);
            },
        }
    }

    /// Adds `source` to the negative side of `name`'s binding, binding it first if needed.
    pub fn push_negative(&mut self, name: String, source: InputSource)
        requires
            old(self).wf(),
        ensures
            final(self).wf(),
            final(self)@ == old(self)@.insert(
                name@,
                (if old(self)@.contains_key(name@) {
                    BindingView {
                        positive: old(self)@[name@].positive,
                        negative: old(self)@[name@].negative.push(source),
                    }
                } else {
                    BindingView { positive: Seq::empty(), negative: seq![source] }
                }),
            ),
    {
        match self.find(&name) {
            Some(i) => {
                proof {
                    self.lemma_at(i as int);
                }
                let b = self.entries[i].1.duplicate().with_negative(source);
                self.set_at(i, b);
            },
            None => {
                let b = ActionBinding::new().with_negative(source);
                assert(b@.negative =~= seq![source]);
                self.insert(name, b);
            },
        }
    }

    /// Removes `source` from both sides of `name`'s binding; returns whether one was removed.
    pub fn unbind_source(&mut self, name: &str, source: InputSource) -> (r: bool)
        requires
            old(self).wf(),
        ensures
            final(self).wf(),
            old(self)@.contains_key(name@) ==> {
                let b = old(self)@[name@];
                let nb = BindingView {
                    positive: b.positive.filter(differs_from(source)),
                    negative: b.negative.filter(differs_from(source)),
                };
                &&& final(self)@ == old(self)@.insert(name@, nb)
                &&& r == (nb.positive.len() != b.positive.len() || nb.negative.len()
                    != b.negative.len())
            },
            !old(self)@.contains_key(name@) ==> final(self)@ == old(self)@ && !r,
    {
        let key = name.to_owned();
        match self.find(&key) {
            Some(i) => {
                proof {
                    self.lemma_at(i as int);
                }
                let mut b = self.entries[i].1.duplicate();
                let positive_before = b.positive.len();
                let negative_before = b.negative.len();
                b.unbind(&source);
                let removed = b.positive.len() != positive_before || b.negative.len()
                    != negative_before;
                self.set_at(i, b);
                removed
            },
            None => false,
        }
    }

    /// Replaces `name`'s binding by the single source `source`; returns whether it was bound.
    pub fn rebind(&mut self, name: &str, source: InputSource) -> (r: bool)
        requires
            old(self).wf(),
        ensures
            final(self).wf(),
            r == old(self)@.contains_key(name@),
            r ==> final(self)@ == old(self)@.insert(
                name@,
                BindingView { positive: seq![source], negative: Seq::empty() },
            ),
            !r ==> final(self)@ == old(self)@,
    {
        let key = name.to_owned();
        match self.find(&key) {
            Some(i) => {
                proof {
                    self.lemma_at(i as int);
                }
                self.set_at(i, ActionBinding::button(source));
                true
            },
            None => false,
        }
    }

    /// The entries, in the order their names were first bound.
    pub fn entries(&self) -> (r: &Vec<(String, ActionBinding)>)
        requires
            self.wf(),
        ensures
            forall|i: int|
                0 <= i < r@.len() ==> self@.contains_key(#[trigger] r@[i].0@) && self@[r@[i].0@]
                    == r@[i].1@,
            forall|n: Seq<char>| #[trigger] self@.contains_key(n) ==> names(r@, n),
    {
        proof {
            assert forall|i: int| 0 <= i < self.entries@.len() implies self@.contains_key(
                #[trigger] self.entries@[i].0@,
            ) && self@[self.entries@[i].0@] == self.entries@[i].1@ by {
                self.lemma_at(i);
            }
        }
        &self.entries
    }
}

} // verus!
