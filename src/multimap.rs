//! An ordered multimap from `u32` keys to ordered sets of `u32` values.

use vstd::prelude::*;

verus! {

/// Lexicographic order on key/value pairs.
pub open spec fn pair_lt(a: (u32, u32), b: (u32, u32)) -> bool {
    a.0 < b.0 || (a.0 == b.0 && a.1 < b.1)
}

pub open spec fn strictly_sorted(s: Seq<(u32, u32)>) -> bool {
    forall|i: int, j: int| 0 <= i < j < s.len() ==> pair_lt(#[trigger] s[i], #[trigger] s[j])
}

pub open spec fn values_increasing(s: Seq<u32>) -> bool {
    forall|i: int, j: int| 0 <= i < j < s.len() ==> #[trigger] s[i] < #[trigger] s[j]
}

fn pair_less(a: (u32, u32), b: (u32, u32)) -> (r: bool)
    ensures
        r == pair_lt(a, b),
{
    a.0 < b.0 || (a.0 == b.0 && a.1 < b.1)
}

/// A set of key/value pairs, kept in lexicographic order, so that each key
/// maps to an ordered set of values.
pub struct OrderedSetMultiMap {
    entries: Vec<(u32, u32)>,
}

impl View for OrderedSetMultiMap {
    type V = Set<(u32, u32)>;

    closed spec fn view(&self) -> Set<(u32, u32)> {
        self.entries@.to_set()
    }
}

impl OrderedSetMultiMap {
    pub closed spec fn wf(&self) -> bool {
        strictly_sorted(self.entries@)
    }

    pub fn new() -> (r: OrderedSetMultiMap)
        ensures
            r.wf(),
            r@ == Set::<(u32, u32)>::empty(),
    {
        let r = OrderedSetMultiMap { entries: Vec::new() };
        assert(r@ =~= Set::<(u32, u32)>::empty());
        r
    }

    /// The values that `key` maps to, in increasing order.
    pub fn get(&self, key: u32) -> (r: Vec<u32>)
        requires
            self.wf(),
        ensures
            values_increasing(r@),
            forall|v: u32| r@.contains(v) <==> self@.contains((key, v)),
    {
        let mut r: Vec<u32> = Vec::new();
        let mut i: usize = 0;
        while i < self.entries.len()
            invariant
                self.wf(),
                i <= self.entries@.len(),
                values_increasing(r@),
                forall|v: u32| r@.contains(v) <==> exists|j: int| 0 <= j < i && self.entries@[j] == (key, v),
                r@.len() > 0 ==> exists|j: int| 0 <= j < i && self.entries@[j] == (key, r@.last()),
            decreases self.entries.len() - i,
        {
            let e = self.entries[i];
            if e.0 == key {
                proof {
                    if r@.len() > 0 {
                        let j = choose|j: int| 0 <= j < i && self.entries@[j] == (key, r@.last());
                        assert(pair_lt(self.entries@[j], self.entries@[i as int]));
                    }
                    assert forall|a: int, b: int| 0 <= a < b < r@.push(e.1).len() implies r@.push(e.1)[a] < r@.push(e.1)[b] by {
                        if b == r@.len() {
                            let v = r@[a];
                            assert(r@.contains(v));
                            let j = choose|j: int| 0 <= j < i && self.entries@[j] == (key, v);
                            assert(pair_lt(self.entries@[j], self.entries@[i as int]));
                        }
                    }
                    assert forall|v: u32| r@.push(e.1).contains(v) <==> exists|j: int| 0 <= j < i + 1 && self.entries@[j] == (key, v) by {
                        if r@.push(e.1).contains(v) {
                            let k = choose|k: int| 0 <= k < r@.push(e.1).len() && r@.push(e.1)[k] == v;
                            if k < r@.len() {
                                assert(r@.contains(v));
                            } else {
                                assert(self.entries@[i as int] == (key, v));
                            }
                        }
                        if exists|j: int| 0 <= j < i + 1 && self.entries@[j] == (key, v) {
                            let j = choose|j: int| 0 <= j < i + 1 && self.entries@[j] == (key, v);
                            if j < i {
                                assert(r@.contains(v));
                                let k = choose|k: int| 0 <= k < r@.len() && r@[k] == v;
                                assert(r@.push(e.1)[k] == v);
                            } else {
                                assert(r@.push(e.1)[r@.len() as int] == v);
                            }
                        }
                    }
                }
                r.push(e.1);
            } else {
                proof {
                    assert forall|v: u32| r@.contains(v) <==> exists|j: int| 0 <= j < i + 1 && self.entries@[j] == (key, v) by {
                        if exists|j: int| 0 <= j < i + 1 && self.entries@[j] == (key, v) {
                            let j = choose|j: int| 0 <= j < i + 1 && self.entries@[j] == (key, v);
                            assert(j < i);
                        }
                    }
                }
            }
            i = i + 1;
        }
        proof {
            assert forall|v: u32| r@.contains(v) <==> self@.contains((key, v)) by {
                if self@.contains((key, v)) {
                    assert(self.entries@.contains((key, v)));
                }
            }
        }
        r
    }

    /// The first position whose pair is not below `x`.
    fn lower_bound(&self, x: (u32, u32)) -> (r: usize)
        requires
            self.wf(),
        ensures
            r <= self.entries@.len(),
            forall|j: int| 0 <= j < r ==> pair_lt(#[trigger] self.entries@[j], x),
            forall|j: int| r <= j < self.entries@.len() ==> !pair_lt(#[trigger] self.entries@[j], x),
    {
        let mut i: usize = 0;
        while i < self.entries.len() && pair_less(self.entries[i], x)
            invariant
                self.wf(),
                i <= self.entries@.len(),
                forall|j: int| 0 <= j < i ==> pair_lt(#[trigger] self.entries@[j], x),
            decreases self.entries.len() - i,
        {
            i = i + 1;
        }
        proof {
            assert forall|j: int| i <= j < self.entries@.len() implies !pair_lt(#[trigger] self.entries@[j], x) by {
                if j > i {
                    assert(pair_lt(self.entries@[i as int], self.entries@[j]));
                }
            }
        }
        i
    }

    /// Adds the pair `(key, value)`; a pair already present stays once.
    pub fn insert(&mut self, key: u32, value: u32)
        requires
            old(self).wf(),
        ensures
            final(self).wf(),
            final(self)@ == old(self)@.insert((key, value)),
    {
        let x = (key, value);
        let pos = self.lower_bound(x);
        if pos < self.entries.len() && self.entries[pos].0 == key && self.entries[pos].1 == value {
            assert(self.entries@.contains(x));
            assert(self@ =~= old(self)@.insert(x));
            return;
        }
        let ghost old_entries = self.entries@;
        self.entries.insert(pos, x);
        proof {
            let s = self.entries@;
            assert forall|i: int, j: int| 0 <= i < j < s.len() implies pair_lt(#[trigger] s[i], #[trigger] s[j]) by {
                if i < pos && j > pos {
                    assert(s[j] == old_entries[j - 1]);
                    assert(!pair_lt(old_entries[j - 1], x));
                } else if i < pos && j == pos {
                } else if i == pos {
                    assert(s[j] == old_entries[j - 1]);
                    assert(!pair_lt(old_entries[j - 1], x));
                    assert(old_entries[pos as int] != x);
                    if j - 1 > pos {
                        assert(pair_lt(old_entries[pos as int], old_entries[j - 1]));
                    }
                } else if i > pos {
                    assert(s[i] == old_entries[i - 1]);
                    assert(s[j] == old_entries[j - 1]);
                } else {
                    assert(s[i] == old_entries[i]);
                    assert(s[j] == old_entries[j]);
                }
            }
            assert forall|p: (u32, u32)| s.contains(p) <==> old_entries.contains(p) || p == x by {
                if s.contains(p) {
                    let k = choose|k: int| 0 <= k < s.len() && s[k] == p;
                    if k < pos {
                        assert(old_entries[k] == p);
                    } else if k > pos {
                        assert(old_entries[k - 1] == p);
                    }
                }
                if old_entries.contains(p) {
                    let k = choose|k: int| 0 <= k < old_entries.len() && old_entries[k] == p;
                    if k < pos {
                        assert(s[k] == p);
                    } else {
                        assert(s[k + 1] == p);
                    }
                }
                if p == x {
                    assert(s[pos as int] == p);
                }
            }
            assert(self@ =~= old(self)@.insert(x));
        }
    }

    /// Removes the pair `(key, value)` if present.
    pub fn remove(&mut self, key: u32, value: u32)
        requires
            old(self).wf(),
        ensures
            final(self).wf(),
            final(self)@ == old(self)@.remove((key, value)),
    {
        let x = (key, value);
        let pos = self.lower_bound(x);
        if pos < self.entries.len() && self.entries[pos].0 == key && self.entries[pos].1 == value {
            let ghost old_entries = self.entries@;
            self.entries.remove(pos);
            proof {
                let s = self.entries@;
                assert forall|i: int, j: int| 0 <= i < j < s.len() implies pair_lt(#[trigger] s[i], #[trigger] s[j]) by {
                    if i < pos {
                        assert(s[i] == old_entries[i]);
                    } else {
                        assert(s[i] == old_entries[i + 1]);
                    }
                    if j < pos {
                        assert(s[j] == old_entries[j]);
                    } else {
                        assert(s[j] == old_entries[j + 1]);
                    }
                }
                assert forall|p: (u32, u32)| s.contains(p) <==> old_entries.contains(p) && p != x by {
                    if s.contains(p) {
                        let k = choose|k: int| 0 <= k < s.len() && s[k] == p;
                        if k < pos {
                            assert(old_entries[k] == p);
                            assert(pair_lt(p, x));
                        } else {
                            assert(old_entries[k + 1] == p);
                            assert(pair_lt(x, p));
                        }
                    }
                    if old_entries.contains(p) && p != x {
                        let k = choose|k: int| 0 <= k < old_entries.len() && old_entries[k] == p;
                        if k < pos {
                            assert(s[k] == p);
                        } else {
                            assert(k != pos);
                            assert(s[k - 1] == p);
                        }
                    }
                }
                assert(self@ =~= old(self)@.remove(x));
            }
        } else {
            proof {
                assert(!self.entries@.contains(x)) by {
                    if self.entries@.contains(x) {
                        let k = choose|k: int| 0 <= k < self.entries@.len() && self.entries@[k] == x;
                        if k > pos {
                            assert(pair_lt(self.entries@[pos as int], x));
                        }
                    }
                }
                assert(self@ =~= old(self)@.remove(x));
            }
        }
    }

    /// The smallest value that `key` maps to.
    pub fn first_value_for(&self, key: u32) -> (r: Option<u32>)
        requires
            self.wf(),
        ensures
            r is None <==> forall|v: u32| !self@.contains((key, v)),
            r matches Some(v) ==> self@.contains((key, v)) && forall|w: u32|
                self@.contains((key, w)) ==> v <= w,
    {
        let pos = self.lower_bound((key, 0));
        if pos < self.entries.len() && self.entries[pos].0 == key {
            let v = self.entries[pos].1;
            proof {
                assert(self.entries@.contains((key, v)));
                assert(self@.contains((key, v)));
                assert forall|w: u32| self@.contains((key, w)) implies v <= w by {
                    let k = choose|k: int| 0 <= k < self.entries@.len() && self.entries@[k] == (key, w);
                    if k < pos {
                        assert(pair_lt(self.entries@[k], (key, 0u32)));
                    } else if k > pos {
                        assert(pair_lt(self.entries@[pos as int], self.entries@[k]));
                    }
                }
            }
            Some(v)
        } else {
            proof {
                assert forall|v: u32| !self@.contains((key, v)) by {
                    if self@.contains((key, v)) {
                        let k = choose|k: int| 0 <= k < self.entries@.len() && self.entries@[k] == (key, v);
                        if k < pos {
                            assert(pair_lt(self.entries@[k], (key, 0u32)));
                        } else if k > pos {
                            assert(pair_lt(self.entries@[pos as int], self.entries@[k]));
                        }
                    }
                }
            }
            None
        }
    }

    /// Removes and returns the smallest value that `key` maps to.
    pub fn remove_first_value_for(&mut self, key: u32) -> (r: Option<u32>)
        requires
            old(self).wf(),
        ensures
            final(self).wf(),
            r is None <==> forall|v: u32| !old(self)@.contains((key, v)),
            r is None ==> final(self)@ == old(self)@,
            r matches Some(v) ==> old(self)@.contains((key, v)) && (forall|w: u32|
                old(self)@.contains((key, w)) ==> v <= w) && final(self)@ == old(self)@.remove(
                (key, v),
            ),
    {
        match self.first_value_for(key) {
            Some(v) => {
                self.remove(key, v);
                Some(v)
            },
            None => None,
        }
    }

    /// The smallest key that is at least `lower_bound`.
    pub fn next_higher_key(&self, lower_bound: u32) -> (r: Option<u32>)
        requires
            self.wf(),
        ensures
            r is None <==> forall|k: u32, v: u32| k >= lower_bound ==> !self@.contains((k, v)),
            r matches Some(k) ==> k >= lower_bound && (exists|v: u32| self@.contains((k, v)))
                && forall|k2: u32, v2: u32|
                k2 >= lower_bound && self@.contains((k2, v2)) ==> k <= k2,
    {
        let pos = self.lower_bound((lower_bound, 0));
        if pos < self.entries.len() {
            let e = self.entries[pos];
            proof {
                assert(self.entries@.contains(e));
                assert(self@.contains((e.0, e.1)));
                assert forall|k2: u32, v2: u32| k2 >= lower_bound && self@.contains((k2, v2)) implies e.0 <= k2 by {
                    let k = choose|k: int| 0 <= k < self.entries@.len() && self.entries@[k] == (k2, v2);
                    if k < pos {
                        assert(pair_lt(self.entries@[k], (lower_bound, 0u32)));
                    } else if k > pos {
                        assert(pair_lt(self.entries@[pos as int], self.entries@[k]));
                    }
                }
            }
            Some(e.0)
        } else {
            proof {
                assert forall|k: u32, v: u32| k >= lower_bound implies !self@.contains((k, v)) by {
                    if self@.contains((k, v)) {
                        let j = choose|j: int| 0 <= j < self.entries@.len() && self.entries@[j] == (k, v);
                        assert(pair_lt(self.entries@[j], (lower_bound, 0u32)));
                    }
                }
            }
            None
        }
    }
}

} // verus!
