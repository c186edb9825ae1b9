use vstd::prelude::*;

verus! {

/// A small copyable value that input state is keyed by (a key, a button, an axis, a touch id).
pub trait InputCode: Copy {
    /// Whether two codes are the same.
    fn same(&self, other: &Self) -> (r: bool)
        ensures
            r == (*self == *other),
    ;
}

impl InputCode for u64 {
    fn same(&self, other: &Self) -> (r: bool) {
        *self == *other
    }
}

/// A set of input codes, kept in the order they were added.
pub struct CodeSet<T> {
    items: Vec<T>,
}

impl<T: InputCode> CodeSet<T> {
    /// The codes in the set.
    pub closed spec fn view(&self) -> Set<T> {
        self.items@.to_set()
    }

    /// No code occurs twice.
    pub closed spec fn wf(&self) -> bool {
        self.items@.no_duplicates()
    }

    /// An empty set.
    pub fn new() -> (s: Self)
        ensures
            s.wf(),
            s@ == Set::<T>::empty(),
    {
        let s = CodeSet { items: Vec::new() };
        assert(s@ =~= Set::<T>::empty());
        s
    }

    fn position(&self, code: &T) -> (r: Option<usize>)
        ensures
            match r {
                Some(i) => i < self.items@.len() && self.items@[i as int] == *code,
                None => !self.items@.contains(*code),
            },
    {
        let mut i: usize = 0;
        while i < self.items.len()
            invariant
                i <= self.items@.len(),
                forall|j: int| 0 <= j < i ==> self.items@[j] != *code,
            decreases self.items@.len() - i,
        {
            if self.items[i].same(code) {
                return Some(i);
            }
            i = i + 1;
        }
        None
    }

    /// Whether `code` is in the set.
    pub fn contains(&self, code: &T) -> (r: bool)
        ensures
            r == self@.contains(*code),
    {
        self.position(code).is_some()
    }

    /// Adds `code`; returns whether it was not in the set before.
    pub fn insert(&mut self, code: T) -> (r: bool)
        requires
            old(self).wf(),
        ensures
            final(self).wf(),
            final(self)@ == old(self)@.insert(code),
            r == !old(self)@.contains(code),
    {
        match self.position(&code) {
            Some(_) => {
                assert(old(self)@.insert(code) =~= old(self)@);
                false
            },
            None => {
                self.items.push(code);
                proof {
                    assert(self.items@ == old(self).items@.push(code));
                    assert(self@ =~= old(self)@.insert(code)) by {
                        assert forall|x: T| self.items@.contains(x) <==> (old(self).items@.contains(x)
                            || x == code) by {
                            if self.items@.contains(x) && x != code {
                                let k = choose|k: int| 0 <= k < self.items@.len() && self.items@[k] == x;
                                assert(old(self).items@[k] == x);
                            }
                            if old(self).items@.contains(x) {
                                let k = choose|k: int|
                                    0 <= k < old(self).items@.len() && old(self).items@[k] == x;
                                assert(self.items@[k] == x);
                            }
                            if x == code {
                                assert(self.items@[old(self).items@.len() as int] == x);
                            }
                        }
                    }
                }
                true
            },
        }
    }

    /// Removes `code`; returns whether it was in the set.
    pub fn remove(&mut self, code: &T) -> (r: bool)
        requires
            old(self).wf(),
        ensures
            final(self).wf(),
            final(self)@ == old(self)@.remove(*code),
            r == old(self)@.contains(*code),
    {
        match self.position(code) {
            Some(i) => {
                let ghost before = self.items@;
                self.items.remove(i);
                proof {
                    assert(self.items@ == before.remove(i as int));
                    assert forall|x: T| self.items@.contains(x) <==> (before.contains(x) && x
                        != *code) by {
                        if self.items@.contains(x) {
                            let k = choose|k: int| 0 <= k < self.items@.len() && self.items@[k] == x;
                            if k < i {
                                assert(before[k] == x);
                            } else {
                                assert(before[k + 1] == x);
                                assert(k + 1 != i);
                            }
                        }
                        if before.contains(x) && x != *code {
                            let k = choose|k: int| 0 <= k < before.len() && before[k] == x;
                            if k < i {
                                assert(self.items@[k] == x);
                            } else {
                                assert(k != i);
                                assert(self.items@[k - 1] == x);
                            }
                        }
                    }
                    assert(self@ =~= old(self)@.remove(*code));
                    assert(self.items@.no_duplicates()) by {
                        assert forall|a: int, b: int|
                            0 <= a < self.items@.len() && 0 <= b < self.items@.len() && a != b
                                implies self.items@[a] != self.items@[b] by {
                            let a2 = if a < i { a } else { a + 1 };
                            let b2 = if b < i { b } else { b + 1 };
                            assert(self.items@[a] == before[a2]);
                            assert(self.items@[b] == before[b2]);
                        }
                    }
                }
                true
            },
            None => {
                assert(old(self)@.remove(*code) =~= old(self)@);
                false
            },
        }
    }

    /// Empties the set.
    pub fn clear(&mut self)
        ensures
            final(self).wf(),
            final(self)@ == Set::<T>::empty(),
    {
        self.items.clear();
        assert(self@ =~= Set::<T>::empty());
    }

    /// Whether the set is empty.
    pub fn is_empty(&self) -> (r: bool)
        ensures
            r == (self@ == Set::<T>::empty()),
    {
        proof {
            if self.items@.len() > 0 {
                assert(self@.contains(self.items@[0]));
            } else {
                assert(self@ =~= Set::<T>::empty());
            }
        }
        self.items.len() == 0
    }

    /// The earliest added code still in the set, if any.
    pub closed spec fn first_code(&self) -> Option<T> {
        if self.items@.len() > 0 {
            Some(self.items@[0])
        } else {
            None
        }
    }

    /// The earliest added code still in the set, if it is not empty.
    pub fn first(&self) -> (r: Option<T>)
        ensures
            r == self.first_code(),
            match r {
                Some(x) => self@.contains(x),
                None => self@ == Set::<T>::empty(),
            },
    {
        if self.items.len() == 0 {
            assert(self@ =~= Set::<T>::empty());
            None
        } else {
            assert(self@.contains(self.items@[0]));
            Some(self.items[0])
        }
    }

    /// The codes of `self` that are not in `other`.
    pub fn difference(&self, other: &CodeSet<T>) -> (r: CodeSet<T>)
        requires
            self.wf(),
        ensures
            r.wf(),
            r@ == self@.difference(other@),
    {
        let mut out: Vec<T> = Vec::new();
        let mut i: usize = 0;
        while i < self.items.len()
            invariant
                self.wf(),
                i <= self.items@.len(),
                out@.no_duplicates(),
                forall|x: T| out@.contains(x) <==> (self.items@.take(i as int).contains(x)
                    && !other@.contains(x)),
            decreases self.items@.len() - i,
        {
            let x = self.items[i];
            let ghost pt = self.items@.take(i as int);
            let ghost ct = self.items@.take(i + 1);
            let ghost before = out@;
            proof {
                assert(ct =~= pt.push(x));
                assert(!pt.contains(x)) by {
                    if pt.contains(x) {
                        let k = choose|k: int| 0 <= k < pt.len() && pt[k] == x;
                        assert(self.items@[k] == self.items@[i as int]);
                    }
                }
            }
            proof {
                assert(!before.contains(x));
            }
            if !other.contains(&x) {
                out.push(x);
                proof {
                    assert forall|a: int, b: int|
                        0 <= a < out@.len() && 0 <= b < out@.len() && a != b implies out@[a]
                        != out@[b] by {
                        if a == before.len() {
                            assert(before.contains(out@[b]));
                        } else if b == before.len() {
                            assert(before.contains(out@[a]));
                        }
                    }
                }
            }
            proof {
                assert forall|y: T| ct.contains(y) <==> (pt.contains(y) || y == x) by {
                    if ct.contains(y) && y != x {
                        let k = choose|k: int| 0 <= k < ct.len() && ct[k] == y;
                        assert(pt[k] == y);
                    }
                    if pt.contains(y) {
                        let k = choose|k: int| 0 <= k < pt.len() && pt[k] == y;
                        assert(ct[k] == y);
                    }
                    if y == x {
                        assert(ct[pt.len() as int] == x);
                    }
                }
                assert forall|y: T| out@.contains(y) <==> (before.contains(y) || (y == x
                    && !other@.contains(x))) by {
                    if out@.contains(y) && !(y == x && !other@.contains(x)) {
                        let k = choose|k: int| 0 <= k < out@.len() && out@[k] == y;
                        assert(before[k] == y);
                    }
                    if before.contains(y) {
                        let k = choose|k: int| 0 <= k < before.len() && before[k] == y;
                        assert(out@[k] == y);
                    }
                    if y == x && !other@.contains(x) {
                        assert(out@[before.len() as int] == x);
                    }
                }
                assert forall|y: T| out@.contains(y) <==> (ct.contains(y) && !other@.contains(y)) by {
                    assert(before.contains(y) <==> (pt.contains(y) && !other@.contains(y)));
                }
            }
            i = i + 1;
        }
        let r = CodeSet { items: out };
        proof {
            assert(self.items@.take(self.items@.len() as int) =~= self.items@);
            assert(r@ =~= self@.difference(other@));
        }
        r
    }

    /// A set holding the codes of `codes`.
    pub fn from_codes(codes: &Vec<T>) -> (r: CodeSet<T>)
        ensures
            r.wf(),
            r@ == codes@.to_set(),
    {
        let mut s = CodeSet::new();
        let mut i: usize = 0;
        while i < codes.len()
            invariant
                i <= codes@.len(),
                s.wf(),
                s@ == codes@.take(i as int).to_set(),
            decreases codes@.len() - i,
        {
            let ghost pt = codes@.take(i as int);
            s.insert(codes[i]);
            proof {
                assert(codes@.take(i + 1) =~= pt.push(codes@[i as int]));
                assert(s@ =~= codes@.take(i + 1).to_set()) by {
                    assert forall|y: T| codes@.take(i + 1).contains(y) <==> (pt.contains(y) || y
                        == codes@[i as int]) by {
                        let ct = codes@.take(i + 1);
                        if ct.contains(y) && y != codes@[i as int] {
                            let k = choose|k: int| 0 <= k < ct.len() && ct[k] == y;
                            assert(pt[k] == y);
                        }
                        if pt.contains(y) {
                            let k = choose|k: int| 0 <= k < pt.len() && pt[k] == y;
                            assert(ct[k] == y);
                        }
                        if y == codes@[i as int] {
                            assert(ct[pt.len() as int] == y);
                        }
                    }
                }
            }
            i = i + 1;
        }
        assert(codes@.take(codes@.len() as int) =~= codes@);
        s
    }

    /// The codes, in the order they were added.
    pub fn codes(&self) -> (r: &Vec<T>)
        ensures
            r@.to_set() == self@,
            self.wf() ==> r@.no_duplicates(),
    {
        &self.items
    }
}

} // verus!
