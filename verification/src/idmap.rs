//! A small association map from `u32` node ids to records.
//!
//! The view tree holds its unbuilt and built node records keyed by node id;
//! this map backs those tables.  It is a vector of `(id, record)` pairs with
//! unique ids, seen in contracts as a mathematical `Map<u32, V>`.

use vstd::prelude::*;

verus! {

pub struct IdMap<V> {
    entries: Vec<(u32, V)>,
}

impl<V> IdMap<V> {
    /// The entries, as a mathematical map.
    pub closed spec fn view(&self) -> Map<u32, V> {
        fold_map(self.entries@)
    }

    /// No id occurs twice.
    pub closed spec fn wf(&self) -> bool {
        forall|i: int, j: int|
            0 <= i < j < self.entries@.len() ==> self.entries@[i].0 != self.entries@[j].0
    }

    proof fn lemma_view_characterizes(&self)
        requires
            self.wf(),
        ensures
            forall|k: u32| self@.dom().contains(k)
                == exists|i: int|
                    0 <= i < self.entries@.len() && (#[trigger] self.entries@[i]).0 == k,
            forall|i: int| 0 <= i < self.entries@.len()
                ==> self@.dom().contains((#[trigger] self.entries@[i]).0)
                    && self@[self.entries@[i].0] == self.entries@[i].1,
            self@.dom().finite(),
            self@.dom().len() == self.entries@.len(),
    {
        lemma_fold_characterizes(self.entries@);
    }

    pub fn new() -> (r: IdMap<V>)
        ensures
            r@ =~= Map::<u32, V>::empty(),
            r.wf(),
    {
        let r = IdMap { entries: Vec::new() };
        proof {
            assert(r.entries@ =~= Seq::<(u32, V)>::empty());
            reveal_with_fuel(Seq::fold_left, 2);
        }
        r
    }

    pub fn len(&self) -> (r: usize)
        requires
            self.wf(),
        ensures
            r == self@.dom().len(),
            self@.dom().finite(),
    {
        proof {
            self.lemma_view_characterizes();
        }
        self.entries.len()
    }

    pub fn contains_key(&self, id: u32) -> (r: bool)
        requires
            self.wf(),
        ensures
            r == self@.dom().contains(id),
    {
        proof {
            self.lemma_view_characterizes();
        }
        let mut i: usize = 0;
        while i < self.entries.len()
            invariant
                0 <= i <= self.entries@.len(),
                forall|k: int| 0 <= k < i ==> (#[trigger] self.entries@[k]).0 != id,
                self@.dom().contains(id) == exists|k: int|
                    0 <= k < self.entries@.len() && (#[trigger] self.entries@[k]).0 == id,
            decreases self.entries@.len() - i,
        {
            if self.entries[i].0 == id {
                return true;
            }
            i += 1;
        }
        false
    }

    pub fn get(&self, id: u32) -> (r: Option<&V>)
        requires
            self.wf(),
        ensures
            match r {
                Some(v) => self@.dom().contains(id) && *v == self@[id],
                None => !self@.dom().contains(id),
            },
    {
        proof {
            self.lemma_view_characterizes();
        }
        let mut i: usize = 0;
        while i < self.entries.len()
            invariant
                0 <= i <= self.entries@.len(),
                forall|k: int| 0 <= k < i ==> (#[trigger] self.entries@[k]).0 != id,
                self@.dom().contains(id) == exists|k: int|
                    0 <= k < self.entries@.len() && (#[trigger] self.entries@[k]).0 == id,
                forall|k: int| 0 <= k < self.entries@.len()
                    ==> self@.dom().contains((#[trigger] self.entries@[k]).0)
                        && self@[self.entries@[k].0] == self.entries@[k].1,
            decreases self.entries@.len() - i,
        {
            if self.entries[i].0 == id {
                return Some(&self.entries[i].1);
            }
            i += 1;
        }
        None
    }

    /// Inserts or replaces the record under `id`.
    pub fn insert(&mut self, id: u32, value: V)
        requires
            old(self).wf(),
        ensures
            final(self).wf(),
            final(self)@ == old(self)@.insert(id, value),
    {
        let mut i: usize = 0;
        while i < self.entries.len()
            invariant
                0 <= i <= self.entries@.len(),
                forall|k: int| 0 <= k < i ==> (#[trigger] self.entries@[k]).0 != id,
                self == old(self),
                self.wf(),
            decreases self.entries@.len() - i,
        {
            if self.entries[i].0 == id {
                let ghost idx = i as int;
                let ghost before = old(self)@;
                proof {
                    assert(old(self).wf());
                }
                self.entries.set(i, (id, value));
                proof {
                    lemma_fold_characterizes(old(self).entries@);
                    assert(self.entries@ == old(self).entries@.update(idx, (id, value)));
                    assert forall|a: int, b: int| 0 <= a < b < self.entries@.len()
                        implies self.entries@[a].0 != self.entries@[b].0 by {
                        assert(old(self).entries@[a].0 != old(self).entries@[b].0);
                        if a != idx {
                            assert(self.entries@[a] == old(self).entries@[a]);
                        }
                        if b != idx {
                            assert(self.entries@[b] == old(self).entries@[b]);
                        }
                    }
                    self.lemma_view_characterizes();
                    assert(self.entries@[idx].0 == id);
                    assert forall|k: u32| #[trigger] before.insert(id, value).dom().contains(k)
                        implies self@.dom().contains(k) && self@[k]
                            == before.insert(id, value)[k] by {
                        if k == id {
                            assert(self@[self.entries@[idx].0] == self.entries@[idx].1);
                        } else {
                            let m = choose|m: int|
                                0 <= m < old(self).entries@.len()
                                    && (#[trigger] old(self).entries@[m]).0 == k;
                            assert(self.entries@[m].0 == k);
                            assert(self.entries@[m] == old(self).entries@[m]);
                            assert(self@[self.entries@[m].0] == self.entries@[m].1);
                            assert(before[old(self).entries@[m].0]
                                == old(self).entries@[m].1);
                        }
                    }
                    assert forall|k: u32| #[trigger] self@.dom().contains(k)
                        implies before.insert(id, value).dom().contains(k) by {
                        let m = choose|m: int|
                            0 <= m < self.entries@.len()
                                && (#[trigger] self.entries@[m]).0 == k;
                        if m != idx {
                            assert(old(self).entries@[m].0 == k);
                        }
                    }
                    assert(self@ =~= before.insert(id, value));
                }
                return ;
            }
            i += 1;
        }
        self.entries.push((id, value));
        let ghost before = old(self)@;
        proof {
            lemma_fold_characterizes(old(self).entries@);
            assert(self.entries@ == old(self).entries@.push((id, value)));
            assert forall|a: int, b: int| 0 <= a < b < self.entries@.len()
                implies self.entries@[a].0 != self.entries@[b].0 by {
                assert(self.entries@[a] == old(self).entries@[a]);
                if b == old(self).entries@.len() {
                    assert(self.entries@[b] == (id, value));
                } else {
                    assert(self.entries@[b] == old(self).entries@[b]);
                }
            }
            self.lemma_view_characterizes();
            assert forall|k: u32| #[trigger] before.insert(id, value).dom().contains(k)
                implies self@.dom().contains(k)
                    && self@[k] == before.insert(id, value)[k] by {
                if k == id {
                    let last = self.entries@.len() - 1;
                    assert(self.entries@[last] == (id, value));
                    assert(self@[self.entries@[last].0] == self.entries@[last].1);
                } else {
                    let m = choose|m: int|
                        0 <= m < old(self).entries@.len()
                            && (#[trigger] old(self).entries@[m]).0 == k;
                    assert(self.entries@[m] == old(self).entries@[m]);
                    assert(self@[self.entries@[m].0] == self.entries@[m].1);
                    assert(before[old(self).entries@[m].0] == old(self).entries@[m].1);
                }
            }
            assert forall|k: u32| #[trigger] self@.dom().contains(k)
                implies before.insert(id, value).dom().contains(k) by {
                let m = choose|m: int|
                    0 <= m < self.entries@.len() && (#[trigger] self.entries@[m]).0 == k;
                if m < old(self).entries@.len() {
                    assert(old(self).entries@[m].0 == k);
                }
            }
            assert(self@ =~= before.insert(id, value));
        }
    }

    /// Removes and returns the record under `id`, if any.
    pub fn remove(&mut self, id: u32) -> (r: Option<V>)
        requires
            old(self).wf(),
        ensures
            final(self).wf(),
            final(self)@ == old(self)@.remove(id),
            match r {
                Some(v) => old(self)@.dom().contains(id) && v == old(self)@[id],
                None => !old(self)@.dom().contains(id),
            },
            final(self)@.dom().len() == if old(self)@.dom().contains(id) {
                old(self)@.dom().len() - 1
            } else {
                old(self)@.dom().len() as int
            },
            !old(self)@.dom().contains(id) ==> *final(self) == *old(self),
    {
        let mut i: usize = 0;
        while i < self.entries.len()
            invariant
                0 <= i <= self.entries@.len(),
                forall|k: int| 0 <= k < i ==> (#[trigger] self.entries@[k]).0 != id,
                self == old(self),
                self.wf(),
            decreases self.entries@.len() - i,
        {
            if self.entries[i].0 == id {
                let ghost idx = i as int;
                let ghost before = old(self)@;
                proof {
                    assert(old(self).wf());
                }
                let (_, v) = self.entries.swap_remove(i);
                proof {
                    lemma_fold_characterizes(old(self).entries@);
                    assert(old(self).entries@[idx].0 == id);
                    assert(before[old(self).entries@[idx].0] == old(self).entries@[idx].1);
                    assert(v == before[id]);
                    let ghost oldseq = old(self).entries@;
                    let last = oldseq.len() - 1;
                    assert(self.entries@ == oldseq.update(idx, oldseq[last]).drop_last());
                    assert forall|a: int, b: int| 0 <= a < b < self.entries@.len()
                        implies self.entries@[a].0 != self.entries@[b].0 by {
                        let pa: int = if a == idx { last } else { a };
                        let pb: int = if b == idx { last } else { b };
                        assert(self.entries@[a] == oldseq[pa]);
                        assert(self.entries@[b] == oldseq[pb]);
                    }
                    self.lemma_view_characterizes();
                    assert forall|k: u32| #[trigger] before.remove(id).dom().contains(k)
                        implies self@.dom().contains(k)
                            && self@[k] == before.remove(id)[k] by {
                        let m = choose|m: int|
                            0 <= m < oldseq.len() && (#[trigger] oldseq[m]).0 == k;
                        assert(oldseq[idx].0 == id);
                        assert(m != idx);
                        let pm: int = if m == last { idx } else { m };
                        assert(self.entries@[pm] == oldseq[m]);
                        assert(self@[self.entries@[pm].0] == self.entries@[pm].1);
                        assert(before[oldseq[m].0] == oldseq[m].1);
                    }
                    assert forall|k: u32| #[trigger] self@.dom().contains(k)
                        implies before.remove(id).dom().contains(k) by {
                        let m = choose|m: int|
                            0 <= m < self.entries@.len()
                                && (#[trigger] self.entries@[m]).0 == k;
                        let pm: int = if m == idx { last } else { m };
                        assert(self.entries@[m] == oldseq[pm]);
                        assert(oldseq[pm].0 == k);
                        if k == id {
                            assert(oldseq[idx].0 == id);
                        }
                    }
                    assert(self@ =~= before.remove(id));
                    assert(before.dom().contains(id));
                    assert(before.remove(id).dom() =~= before.dom().remove(id));
                    broadcast use vstd::set_lib::group_set_properties;
                }
                return Some(v);
            }
            i += 1;
        }
        let ghost before = old(self)@;
        proof {
            lemma_fold_characterizes(old(self).entries@);
            assert(!before.dom().contains(id));
            assert(before.remove(id) =~= before);
        }
        None
    }
}

/// Folding entry pairs into a map makes exactly the pairs' ids its domain;
/// with unique ids, each id maps to its pair's record.
proof fn lemma_fold_characterizes<V>(s: Seq<(u32, V)>)
    requires
        forall|i: int, j: int| 0 <= i < j < s.len() ==> s[i].0 != s[j].0,
    ensures
        forall|k: u32| fold_map(s).dom().contains(k)
            == exists|i: int| 0 <= i < s.len() && (#[trigger] s[i]).0 == k,
        forall|i: int| 0 <= i < s.len()
            ==> fold_map(s).dom().contains((#[trigger] s[i]).0)
                && fold_map(s)[s[i].0] == s[i].1,
        fold_map(s).dom().finite(),
        fold_map(s).dom().len() == s.len(),
    decreases s.len(),
{
    if s.len() == 0 {
        assert(s =~= Seq::<(u32, V)>::empty());
        reveal_with_fuel(Seq::fold_left, 2);
        assert(fold_map(s) == Map::<u32, V>::empty());
    } else {
        let prefix = s.drop_last();
        lemma_fold_characterizes(prefix);
        let last = s[s.len() - 1];
        assert(fold_map(s) == fold_map(prefix).insert(last.0, last.1));
        assert forall|k: u32| fold_map(s).dom().contains(k)
            implies exists|i: int| 0 <= i < s.len() && (#[trigger] s[i]).0 == k by {
            if k == last.0 {
                assert(s[s.len() - 1].0 == k);
            } else {
                let m = choose|m: int|
                    0 <= m < prefix.len() && (#[trigger] prefix[m]).0 == k;
                assert(s[m].0 == k);
            }
        }
        assert forall|i: int| 0 <= i < s.len()
            implies fold_map(s).dom().contains((#[trigger] s[i]).0)
                && fold_map(s)[s[i].0] == s[i].1 by {
            if i == s.len() - 1 {
            } else {
                assert(prefix[i] == s[i]);
                assert(s[i].0 != last.0);
            }
        }
        assert(!fold_map(prefix).dom().contains(last.0)) by {
            if fold_map(prefix).dom().contains(last.0) {
                let m = choose|m: int|
                    0 <= m < prefix.len() && (#[trigger] prefix[m]).0 == last.0;
                assert(s[m].0 == s[s.len() - 1].0);
            }
        }
        broadcast use vstd::set_lib::group_set_properties;
        assert(fold_map(s).dom() =~= fold_map(prefix).dom().insert(last.0));
    }
}

/// The map that a sequence of `(id, record)` pairs folds to.
spec fn fold_map<V>(s: Seq<(u32, V)>) -> Map<u32, V> {
    s.fold_left(
        Map::<u32, V>::empty(),
        |acc: Map<u32, V>, p: (u32, V)| acc.insert(p.0, p.1),
    )
}

} // verus!
