use vstd::prelude::*;

verus! {

/// A set of object keys held as a vector without repetitions, so that it can
/// be drained in a loop.
pub struct KeySet {
    keys: Vec<u64>,
}

impl KeySet {
    /// No key is held twice.
    pub closed spec fn wf(&self) -> bool {
        self.keys@.no_duplicates()
    }

    /// The keys in the set.
    pub closed spec fn view_set(&self) -> Set<u64> {
        self.keys@.to_set()
    }

    pub fn new() -> (r: KeySet)
        ensures
            r.wf(),
            r.view_set() == Set::<u64>::empty(),
    {
        let r = KeySet { keys: Vec::new() };
        assert(r.keys@.to_set() =~= Set::<u64>::empty());
        r
    }

    pub fn contains(&self, k: u64) -> (r: bool)
        ensures
            r == self.view_set().contains(k),
    {
        let mut i: usize = 0;
        while i < self.keys.len()
            invariant
                0 <= i <= self.keys@.len(),
                forall|j: int| 0 <= j < i ==> self.keys@[j] != k,
            decreases self.keys@.len() - i,
        {
            if self.keys[i] == k {
                return true;
            }
            i += 1;
        }
        false
    }

    pub fn insert(&mut self, k: u64)
        requires
            old(self).wf(),
        ensures
            final(self).wf(),
            final(self).view_set() == old(self).view_set().insert(k),
    {
        if !self.contains(k) {
            let ghost before = self.keys@;
            self.keys.push(k);
            proof {
                assert(self.keys@ == before.push(k));
                assert(self.keys@.no_duplicates()) by {
                    assert(!before.contains(k));
                    assert forall|a: int, b: int| 0 <= a < b < self.keys@.len() implies self.keys@[a] != self.keys@[b] by {
                        if b == before.len() {
                            assert(before[a] == self.keys@[a]);
                        }
                    }
                }
                assert forall|x: u64| #[trigger] self.keys@.contains(x) <==> (before.contains(x) || x == k) by {
                    if before.contains(x) {
                        let j = choose|j: int| 0 <= j < before.len() && before[j] == x;
                        assert(self.keys@[j] == x);
                    }
                    if x == k {
                        assert(self.keys@[before.len() as int] == x);
                    }
                    if self.keys@.contains(x) && x != k {
                        let j = choose|j: int| 0 <= j < self.keys@.len() && self.keys@[j] == x;
                        assert(before[j] == x);
                    }
                }
                assert(self.keys@.to_set() =~= before.to_set().insert(k));
            }
        } else {
            assert(old(self).view_set().insert(k) =~= old(self).view_set());
        }
    }

    pub fn remove(&mut self, k: u64)
        requires
            old(self).wf(),
        ensures
            final(self).wf(),
            final(self).view_set() == old(self).view_set().remove(k),
    {
        let ghost before = self.keys@;
        let mut i: usize = 0;
        while i < self.keys.len()
            invariant
                self.keys@ == before,
                before == old(self).keys@,
                before.no_duplicates(),
                0 <= i <= before.len(),
                forall|j: int| 0 <= j < i ==> before[j] != k,
            decreases before.len() - i,
        {
            if self.keys[i] == k {
                self.keys.remove(i);
                proof {
                    assert(self.keys@ == before.remove(i as int));
                    assert(self.keys@.no_duplicates()) by {
                        assert forall|a: int, b: int| 0 <= a < b < self.keys@.len() implies self.keys@[a] != self.keys@[b] by {
                            let a2 = if a < i { a } else { a + 1 };
                            let b2 = if b < i { b } else { b + 1 };
                            assert(self.keys@[a] == before[a2]);
                            assert(self.keys@[b] == before[b2]);
                        }
                    }
                    assert forall|x: u64| #[trigger] self.keys@.contains(x) <==> (before.contains(x) && x != k) by {
                        if self.keys@.contains(x) {
                            let j = choose|j: int| 0 <= j < self.keys@.len() && self.keys@[j] == x;
                            if j < i {
                                assert(before[j] == x);
                            } else {
                                assert(before[j + 1] == x);
                            }
                        }
                        if before.contains(x) && x != k {
                            let j = choose|j: int| 0 <= j < before.len() && before[j] == x;
                            if j < i {
                                assert(self.keys@[j] == x);
                            } else {
                                assert(j != i);
                                assert(self.keys@[j - 1] == x);
                            }
                        }
                    }
                    assert(self.keys@.to_set() =~= before.to_set().remove(k));
                }
                return;
            }
            i += 1;
        }
        assert(old(self).view_set().remove(k) =~= old(self).view_set());
    }

    /// Empties the set and hands its keys out, each once.
    pub fn take(&mut self) -> (r: Vec<u64>)
        requires
            old(self).wf(),
        ensures
            final(self).wf(),
            final(self).view_set() == Set::<u64>::empty(),
            r@.to_set() == old(self).view_set(),
            r@.no_duplicates(),
    {
        let mut r = Vec::new();
        std::mem::swap(&mut r, &mut self.keys);
        assert(self.keys@.to_set() =~= Set::<u64>::empty());
        r
    }
}

} // verus!
