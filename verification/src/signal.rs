//! The reactive cell.
//!
//! A [`Signal`] owns a current value together with two dependent
//! collections: the unkeyed set of node ids that read the whole value, and a
//! keyed map from collection key to the one node id registered against that
//! key (last writer wins).  A write to the signal marks every dependent in a
//! [`DirtySet`], which the render pass later drains.
//!
//! The "currently rendering node" is explicit context here: readers pass the
//! id of the node being rendered (`0` when no node is rendering), and writers
//! pass the dirty set to fill.

use vstd::prelude::*;

verus! {

/// The set of node ids pending rebuild, kept in insertion order.
pub struct DirtySet {
    ids: Vec<u32>,
}

impl DirtySet {
    /// The pending ids, in insertion order.
    pub closed spec fn view(&self) -> Seq<u32> {
        self.ids@
    }

    /// No id occurs twice.
    pub closed spec fn wf(&self) -> bool {
        forall|i: int, j: int|
            0 <= i < j < self.ids@.len() ==> self.ids@[i] != self.ids@[j]
    }

    pub fn new() -> (r: DirtySet)
        ensures
            r@ =~= Seq::<u32>::empty(),
            r.wf(),
    {
        DirtySet { ids: Vec::new() }
    }

    /// Adds `id` unless it is already pending.
    pub fn insert(&mut self, id: u32)
        requires
            old(self).wf(),
        ensures
            final(self).wf(),
            final(self)@ == if old(self)@.contains(id) {
                old(self)@
            } else {
                old(self)@.push(id)
            },
            final(self)@.contains(id),
            forall|n: u32| #[trigger] final(self)@.contains(n)
                == (old(self)@.contains(n) || n == id),
    {
        proof {
            let ghost before = self.ids@;
            let ghost after = if before.contains(id) { before } else { before.push(id) };
            assert(after.contains(id)) by {
                if !before.contains(id) {
                    assert(after[after.len() - 1] == id);
                }
            }
            assert forall|n: u32| #[trigger] after.contains(n)
                implies (before.contains(n) || n == id) by {
                let m = choose|m: int| 0 <= m < after.len() && after[m] == n;
                if m < before.len() {
                    assert(before[m] == n);
                }
            }
            assert forall|n: u32| before.contains(n) implies after.contains(n) by {
                let m = choose|m: int| 0 <= m < before.len() && before[m] == n;
                assert(after[m] == n);
            }
        }
        let mut i: usize = 0;
        while i < self.ids.len()
            invariant
                0 <= i <= self.ids@.len(),
                forall|k: int| 0 <= k < i ==> self.ids@[k] != id,
                self.wf(),
                self@ == old(self)@,
            decreases self.ids@.len() - i,
        {
            if self.ids[i] == id {
                proof {
                    assert(old(self)@.contains(id));
                }
                return ;
            }
            i += 1;
        }
        proof {
            assert(forall|k: int| 0 <= k < self.ids@.len() ==> self.ids@[k] != id);
            assert(!old(self)@.contains(id));
        }
        self.ids.push(id);
    }

    /// Whether `id` is pending.
    pub fn contains(&self, id: u32) -> (r: bool)
        ensures
            r == self@.contains(id),
    {
        let mut i: usize = 0;
        while i < self.ids.len()
            invariant
                0 <= i <= self.ids@.len(),
                forall|k: int| 0 <= k < i ==> self.ids@[k] != id,
            decreases self.ids@.len() - i,
        {
            if self.ids[i] == id {
                return true;
            }
            i += 1;
        }
        false
    }

    pub fn len(&self) -> (r: usize)
        ensures
            r == self@.len(),
    {
        self.ids.len()
    }

    /// Empties the set and hands the pending ids out in insertion order.
    pub fn drain(&mut self) -> (r: Vec<u32>)
        ensures
            r@ == old(self)@,
            final(self)@ =~= Seq::<u32>::empty(),
            final(self).wf(),
    {
        let mut out: Vec<u32> = Vec::new();
        core::mem::swap(&mut out, &mut self.ids);
        out
    }
}

/// The value and the dependent records of a reactive cell.
pub struct SignalData<T> {
    value: T,
    /// Node ids registered by unkeyed reads; no id occurs twice.
    pub registered_dom_nodes: Vec<u32>,
    /// Node ids registered by keyed reads, one per key.
    pub registered_dom_nodes_by_key: Vec<(u32, u32)>,
}

impl<T> SignalData<T> {
    pub fn new(value: T) -> (r: SignalData<T>)
        ensures
            r.value_spec() == value,
            r.deps() =~= Seq::<u32>::empty(),
            r.keyed_deps() =~= Seq::<(u32, u32)>::empty(),
            r.wf(),
    {
        SignalData {
            value,
            registered_dom_nodes: Vec::new(),
            registered_dom_nodes_by_key: Vec::new(),
        }
    }

    /// The current value.
    pub closed spec fn value_spec(&self) -> T {
        self.value
    }

    /// The unkeyed dependents, in registration order.
    pub closed spec fn deps(&self) -> Seq<u32> {
        self.registered_dom_nodes@
    }

    /// The keyed dependents, as `(key, node id)` pairs.
    pub closed spec fn keyed_deps(&self) -> Seq<(u32, u32)> {
        self.registered_dom_nodes_by_key@
    }

    /// Whether `node` is registered against key `key`.
    pub open spec fn keyed_dep_of(&self, key: u32, node: u32) -> bool {
        self.keyed_deps().contains((key, node))
    }

    /// No unkeyed id twice; no key twice.
    pub closed spec fn wf(&self) -> bool {
        &&& forall|i: int, j: int|
            0 <= i < j < self.registered_dom_nodes@.len()
                ==> self.registered_dom_nodes@[i] != self.registered_dom_nodes@[j]
        &&& forall|i: int, j: int|
            0 <= i < j < self.registered_dom_nodes_by_key@.len()
                ==> self.registered_dom_nodes_by_key@[i].0
                    != self.registered_dom_nodes_by_key@[j].0
    }
}

/// A reactive cell: a value whose readers are tracked and invalidated on
/// write.
pub struct Signal<T> {
    pub inner: SignalData<T>,
}

/// The dependents that a write marks dirty: every unkeyed dependent and
/// every keyed dependent, whatever its key.
pub open spec fn write_targets<T>(s: SignalData<T>, node: u32) -> bool {
    s.deps().contains(node) || exists|k: u32| s.keyed_dep_of(k, node)
}

impl<T> Signal<T> {
    pub fn new(value: T) -> (r: Signal<T>)
        ensures
            r.inner.value_spec() == value,
            r.inner.deps() =~= Seq::<u32>::empty(),
            r.inner.keyed_deps() =~= Seq::<(u32, u32)>::empty(),
            r.inner.wf(),
    {
        Signal { inner: SignalData::new(value) }
    }

    /// Clears both dependent collections.  Invoked at the start of each
    /// render of the owning node, so the dependency graph is rebuilt fresh
    /// every render.
    pub fn reset(&mut self)
        ensures
            final(self).inner.value_spec() == old(self).inner.value_spec(),
            final(self).inner.deps() =~= Seq::<u32>::empty(),
            final(self).inner.keyed_deps() =~= Seq::<(u32, u32)>::empty(),
            final(self).inner.wf(),
    {
        self.inner.registered_dom_nodes.clear();
        self.inner.registered_dom_nodes_by_key.clear();
    }

    /// The current value, for mutation in place.
    pub fn get_mut(&mut self) -> (r: &mut T)
        ensures
            *r == old(self).inner.value_spec(),
            final(self).inner.value_spec() == *final(r),
            final(self).inner.deps() == old(self).inner.deps(),
            final(self).inner.keyed_deps() == old(self).inner.keyed_deps(),
            final(self).inner.wf() == old(self).inner.wf(),
    {
        &mut self.inner.value
    }

    /// The current value, without registering a dependent.
    pub fn peek(&self) -> (r: &T)
        ensures
            *r == self.inner.value_spec(),
    {
        &self.inner.value
    }

    /// Reads the current value.  When a node is actively rendering
    /// (`current_dom_id > 0`), registers that node as an unkeyed dependent.
    pub fn get(&mut self, current_dom_id: u32) -> (r: &T)
        requires
            old(self).inner.wf(),
        ensures
            *r == old(self).inner.value_spec(),
            final(self).inner.value_spec() == old(self).inner.value_spec(),
            final(self).inner.keyed_deps() == old(self).inner.keyed_deps(),
            final(self).inner.wf(),
            final(self).inner.deps() == if current_dom_id > 0
                && !old(self).inner.deps().contains(current_dom_id) {
                old(self).inner.deps().push(current_dom_id)
            } else {
                old(self).inner.deps()
            },
    {
        if current_dom_id > 0 {
            register_unique(&mut self.inner.registered_dom_nodes, current_dom_id);
        }
        &self.inner.value
    }

    /// Reads the current value.  When a node is actively rendering,
    /// registers that node against `index`, overwriting any previous
    /// registration for that key.
    pub fn get_with_key(&mut self, index: u32, current_dom_id: u32) -> (r: &T)
        requires
            old(self).inner.wf(),
        ensures
            *r == old(self).inner.value_spec(),
            final(self).inner.value_spec() == old(self).inner.value_spec(),
            final(self).inner.deps() == old(self).inner.deps(),
            final(self).inner.wf(),
            current_dom_id > 0 ==> final(self).inner.keyed_dep_of(index, current_dom_id),
            current_dom_id > 0 ==> forall|k: u32, n: u32|
                k != index ==> (#[trigger] final(self).inner.keyed_dep_of(k, n)
                    == old(self).inner.keyed_dep_of(k, n)),
            current_dom_id > 0 ==> forall|n: u32|
                #[trigger] final(self).inner.keyed_dep_of(index, n) == (n == current_dom_id),
            current_dom_id == 0 ==> final(self).inner.keyed_deps()
                == old(self).inner.keyed_deps(),
    {
        if current_dom_id > 0 {
            register_keyed(&mut self.inner.registered_dom_nodes_by_key, index, current_dom_id);
        }
        &self.inner.value
    }

    /// Replaces the value, then marks every currently registered dependent —
    /// unkeyed and keyed alike — as dirty.
    pub fn set(&mut self, value: T, to_re_render: &mut DirtySet)
        requires
            old(self).inner.wf(),
            old(to_re_render).wf(),
        ensures
            final(self).inner.value_spec() == value,
            final(self).inner.deps() == old(self).inner.deps(),
            final(self).inner.keyed_deps() == old(self).inner.keyed_deps(),
            final(self).inner.wf(),
            final(to_re_render).wf(),
            // every dependent is dirty afterwards
            forall|n: u32| write_targets(old(self).inner, n)
                ==> final(to_re_render)@.contains(n),
            // an id pending before the write is still pending
            forall|n: u32| old(to_re_render)@.contains(n) ==> final(to_re_render)@.contains(n),
            // nothing else became dirty
            forall|n: u32| final(to_re_render)@.contains(n)
                ==> old(to_re_render)@.contains(n) || write_targets(old(self).inner, n),
    {
        self.inner.value = value;
        let mut i: usize = 0;
        while i < self.inner.registered_dom_nodes.len()
            invariant
                0 <= i <= self.inner.registered_dom_nodes@.len(),
                self.inner.value_spec() == value,
                self.inner.deps() == old(self).inner.deps(),
                self.inner.keyed_deps() == old(self).inner.keyed_deps(),
                self.inner.wf(),
                to_re_render.wf(),
                forall|k: int| 0 <= k < i
                    ==> to_re_render@.contains(#[trigger] self.inner.deps()[k]),
                forall|n: u32| old(to_re_render)@.contains(n) ==> to_re_render@.contains(n),
                forall|n: u32| to_re_render@.contains(n)
                    ==> old(to_re_render)@.contains(n) || write_targets(old(self).inner, n),
            decreases self.inner.registered_dom_nodes@.len() - i,
        {
            let node = self.inner.registered_dom_nodes[i];
            proof {
                assert(self.inner.deps().contains(node));
                assert(old(self).inner.deps().contains(node));
                assert(write_targets(old(self).inner, node));
            }
            to_re_render.insert(node);
            i += 1;
        }
        let mut j: usize = 0;
        while j < self.inner.registered_dom_nodes_by_key.len()
            invariant
                0 <= j <= self.inner.registered_dom_nodes_by_key@.len(),
                self.inner.value_spec() == value,
                self.inner.deps() == old(self).inner.deps(),
                self.inner.keyed_deps() == old(self).inner.keyed_deps(),
                self.inner.wf(),
                to_re_render.wf(),
                forall|k: int| 0 <= k < self.inner.deps().len()
                    ==> to_re_render@.contains(#[trigger] self.inner.deps()[k]),
                forall|k: int| 0 <= k < j
                    ==> to_re_render@.contains(#[trigger] self.inner.keyed_deps()[k].1),
                forall|n: u32| old(to_re_render)@.contains(n) ==> to_re_render@.contains(n),
                forall|n: u32| to_re_render@.contains(n)
                    ==> old(to_re_render)@.contains(n) || write_targets(old(self).inner, n),
            decreases self.inner.registered_dom_nodes_by_key@.len() - j,
        {
            let (key, node) = self.inner.registered_dom_nodes_by_key[j];
            proof {
                assert(self.inner.keyed_deps().contains((key, node)));
                assert(old(self).inner.keyed_dep_of(key, node));
                assert(write_targets(old(self).inner, node));
            }
            to_re_render.insert(node);
            j += 1;
        }
        proof {
            assert forall|n: u32| write_targets(old(self).inner, n)
                implies to_re_render@.contains(n) by {
                if old(self).inner.deps().contains(n) {
                    let k = choose|k: int|
                        0 <= k < old(self).inner.deps().len()
                            && old(self).inner.deps()[k] == n;
                    assert(to_re_render@.contains(self.inner.deps()[k]));
                } else {
                    let key = choose|key: u32| old(self).inner.keyed_dep_of(key, n);
                    let k = choose|k: int|
                        0 <= k < old(self).inner.keyed_deps().len()
                            && old(self).inner.keyed_deps()[k] == (key, n);
                    assert(to_re_render@.contains(self.inner.keyed_deps()[k].1));
                }
            }
        }
    }
}

impl<T> Signal<T> {
    /// Marks every unkeyed dependent dirty, and every keyed dependent whose
    /// key is among `affected` — and no other node.  This is the targeted
    /// invalidation behind keyed updates: a change to one key must not
    /// dirty nodes registered only against other keys.
    pub fn invalidate_keys(&self, affected: &Vec<u32>, to_re_render: &mut DirtySet)
        requires
            self.inner.wf(),
            old(to_re_render).wf(),
        ensures
            final(to_re_render).wf(),
            forall|n: u32| self.inner.deps().contains(n) ==> final(to_re_render)@.contains(n),
            forall|k: u32, n: u32|
                #[trigger] self.inner.keyed_dep_of(k, n) && affected@.contains(k)
                    ==> final(to_re_render)@.contains(n),
            forall|n: u32| old(to_re_render)@.contains(n) ==> final(to_re_render)@.contains(n),
            forall|n: u32| final(to_re_render)@.contains(n) ==> old(to_re_render)@.contains(n)
                || self.inner.deps().contains(n)
                || exists|k: u32| #[trigger] self.inner.keyed_dep_of(k, n)
                    && affected@.contains(k),
    {
        let mut i: usize = 0;
        while i < self.inner.registered_dom_nodes.len()
            invariant
                0 <= i <= self.inner.deps().len(),
                self.inner.wf(),
                to_re_render.wf(),
                forall|m: int| 0 <= m < i
                    ==> to_re_render@.contains(#[trigger] self.inner.deps()[m]),
                forall|n: u32| old(to_re_render)@.contains(n) ==> to_re_render@.contains(n),
                forall|n: u32| to_re_render@.contains(n) ==> old(to_re_render)@.contains(n)
                    || self.inner.deps().contains(n),
            decreases self.inner.deps().len() - i,
        {
            let node = self.inner.registered_dom_nodes[i];
            proof {
                assert(self.inner.deps().contains(node));
            }
            to_re_render.insert(node);
            i += 1;
        }
        let mut j: usize = 0;
        while j < self.inner.registered_dom_nodes_by_key.len()
            invariant
                0 <= j <= self.inner.keyed_deps().len(),
                self.inner.wf(),
                to_re_render.wf(),
                forall|m: int| 0 <= m < self.inner.deps().len()
                    ==> to_re_render@.contains(#[trigger] self.inner.deps()[m]),
                forall|m: int| 0 <= m < j && affected@.contains(
                    (#[trigger] self.inner.keyed_deps()[m]).0,
                ) ==> to_re_render@.contains(self.inner.keyed_deps()[m].1),
                forall|n: u32| old(to_re_render)@.contains(n) ==> to_re_render@.contains(n),
                forall|n: u32| to_re_render@.contains(n) ==> old(to_re_render)@.contains(n)
                    || self.inner.deps().contains(n)
                    || exists|k: u32| #[trigger] self.inner.keyed_dep_of(k, n)
                        && affected@.contains(k),
            decreases self.inner.keyed_deps().len() - j,
        {
            let (key, node) = self.inner.registered_dom_nodes_by_key[j];
            if vec_contains(affected, key) {
                proof {
                    assert(self.inner.keyed_deps().contains((key, node)));
                    assert(self.inner.keyed_dep_of(key, node));
                }
                to_re_render.insert(node);
            }
            j += 1;
        }
        proof {
            assert forall|n: u32| self.inner.deps().contains(n)
                implies to_re_render@.contains(n) by {
                let m = choose|m: int|
                    0 <= m < self.inner.deps().len() && self.inner.deps()[m] == n;
                assert(to_re_render@.contains(self.inner.deps()[m]));
            }
            assert forall|k: u32, n: u32|
                #[trigger] self.inner.keyed_dep_of(k, n) && affected@.contains(k)
                implies to_re_render@.contains(n) by {
                let m = choose|m: int|
                    0 <= m < self.inner.keyed_deps().len()
                        && self.inner.keyed_deps()[m] == (k, n);
                assert(affected@.contains(self.inner.keyed_deps()[m].0));
                assert(to_re_render@.contains(self.inner.keyed_deps()[m].1));
            }
        }
    }
}

/// Whether `v` holds `x`.
fn vec_contains(v: &Vec<u32>, x: u32) -> (r: bool)
    ensures
        r == v@.contains(x),
{
    let mut i: usize = 0;
    while i < v.len()
        invariant
            0 <= i <= v@.len(),
            forall|k: int| 0 <= k < i ==> v@[k] != x,
        decreases v@.len() - i,
    {
        if v[i] == x {
            return true;
        }
        i += 1;
    }
    false
}

/// Appends `id` to `v` unless it is already present, keeping the entries
/// unique.
fn register_unique(v: &mut Vec<u32>, id: u32)
    requires
        forall|i: int, j: int| 0 <= i < j < old(v)@.len() ==> old(v)@[i] != old(v)@[j],
    ensures
        forall|i: int, j: int| 0 <= i < j < final(v)@.len() ==> final(v)@[i] != final(v)@[j],
        final(v)@ == if old(v)@.contains(id) {
            old(v)@
        } else {
            old(v)@.push(id)
        },
{
    let mut i: usize = 0;
    while i < v.len()
        invariant
            0 <= i <= v@.len(),
            forall|k: int| 0 <= k < i ==> v@[k] != id,
            v@ == old(v)@,
            forall|a: int, b: int| 0 <= a < b < v@.len() ==> v@[a] != v@[b],
        decreases v@.len() - i,
    {
        if v[i] == id {
            proof {
                assert(old(v)@.contains(id));
            }
            return ;
        }
        i += 1;
    }
    proof {
        assert(!old(v)@.contains(id));
    }
    v.push(id);
    proof {
        assert forall|a: int, b: int| 0 <= a < b < v@.len() implies v@[a] != v@[b] by {
            if b == old(v)@.len() {
                assert(v@[a] == old(v)@[a]);
                assert(v@[b] == id);
            } else {
                assert(v@[a] == old(v)@[a]);
                assert(v@[b] == old(v)@[b]);
            }
        }
    }
}

/// Records `(key, node)` in `v`, overwriting any pair that already carries
/// `key`: the last writer wins.
fn register_keyed(v: &mut Vec<(u32, u32)>, key: u32, node: u32)
    requires
        forall|i: int, j: int| 0 <= i < j < old(v)@.len() ==> old(v)@[i].0 != old(v)@[j].0,
    ensures
        forall|i: int, j: int| 0 <= i < j < final(v)@.len() ==> final(v)@[i].0 != final(v)@[j].0,
        final(v)@.contains((key, node)),
        forall|p: (u32, u32)| p.0 != key
            ==> (#[trigger] final(v)@.contains(p) == old(v)@.contains(p)),
        forall|p: (u32, u32)| #[trigger] final(v)@.contains(p) && p.0 == key ==> p.1 == node,
{
    let mut i: usize = 0;
    while i < v.len()
        invariant
            0 <= i <= v@.len(),
            forall|k: int| 0 <= k < i ==> v@[k].0 != key,
            v@ == old(v)@,
            forall|a: int, b: int| 0 <= a < b < v@.len() ==> v@[a].0 != v@[b].0,
        decreases v@.len() - i,
    {
        if v[i].0 == key {
            let ghost idx = i as int;
            v.set(i, (key, node));
            proof {
                assert(v@ == old(v)@.update(idx, (key, node)));
                assert(v@.contains((key, node))) by {
                    assert(v@[idx] == (key, node));
                }
                assert forall|a: int, b: int| 0 <= a < b < v@.len()
                    implies v@[a].0 != v@[b].0 by {
                    assert(old(v)@[a].0 != old(v)@[b].0);
                    if a == idx {
                        assert(v@[a].0 == old(v)@[a].0);
                    }
                    if b == idx {
                        assert(v@[b].0 == old(v)@[b].0);
                    }
                }
                assert forall|p: (u32, u32)| p.0 != key
                    implies (#[trigger] v@.contains(p) == old(v)@.contains(p)) by {
                    if v@.contains(p) {
                        let m = choose|m: int| 0 <= m < v@.len() && v@[m] == p;
                        assert(m != idx);
                        assert(old(v)@[m] == p);
                    }
                    if old(v)@.contains(p) {
                        let m = choose|m: int|
                            0 <= m < old(v)@.len() && old(v)@[m] == p;
                        assert(m != idx);
                        assert(v@[m] == p);
                    }
                }
                assert forall|p: (u32, u32)| #[trigger] v@.contains(p) && p.0 == key
                    implies p.1 == node by {
                    let m = choose|m: int| 0 <= m < v@.len() && v@[m] == p;
                    if m != idx {
                        assert(old(v)@[m] == p);
                        assert(old(v)@[m].0 == key);
                        assert(old(v)@[idx].0 == key);
                        if m < idx {
                            assert(old(v)@[m].0 != old(v)@[idx].0);
                        } else {
                            assert(old(v)@[idx].0 != old(v)@[m].0);
                        }
                    }
                }
            }
            return ;
        }
        i += 1;
    }
    proof {
        assert(forall|k: int| 0 <= k < old(v)@.len() ==> old(v)@[k].0 != key);
    }
    v.push((key, node));
    proof {
        assert(v@ == old(v)@.push((key, node)));
        assert(v@[v@.len() - 1] == (key, node));
        assert(v@.contains((key, node)));
        assert forall|a: int, b: int| 0 <= a < b < v@.len()
            implies v@[a].0 != v@[b].0 by {
            assert(v@[a] == old(v)@[a]);
            if b == old(v)@.len() {
                assert(v@[b] == (key, node));
                assert(old(v)@[a].0 != key);
            } else {
                assert(v@[b] == old(v)@[b]);
            }
        }
        assert forall|p: (u32, u32)| p.0 != key
            implies (#[trigger] v@.contains(p) == old(v)@.contains(p)) by {
            if v@.contains(p) {
                let m = choose|m: int| 0 <= m < v@.len() && v@[m] == p;
                assert(m < old(v)@.len());
                assert(old(v)@[m] == p);
            }
            if old(v)@.contains(p) {
                let m = choose|m: int| 0 <= m < old(v)@.len() && old(v)@[m] == p;
                assert(v@[m] == p);
            }
        }
        assert forall|p: (u32, u32)| #[trigger] v@.contains(p) && p.0 == key
            implies p.1 == node by {
            let m = choose|m: int| 0 <= m < v@.len() && v@[m] == p;
            if m < old(v)@.len() {
                assert(old(v)@[m] == p);
                assert(old(v)@[m].0 != key);
            }
        }
    }
}

/// Dependency soundness: a node that is not registered on a signal — neither
/// unkeyed nor against any key — and is not already pending is not marked
/// dirty by a write to that signal.
pub proof fn lemma_dependency_soundness<T>(
    before: SignalData<T>,
    dirty_before: Seq<u32>,
    dirty_after: Seq<u32>,
    node: u32,
)
    requires
        !before.deps().contains(node),
        forall|k: u32| !before.keyed_dep_of(k, node),
        !dirty_before.contains(node),
        // what `Signal::set` ensures of the dirty set
        forall|n: u32| dirty_after.contains(n)
            ==> dirty_before.contains(n) || write_targets(before, n),
    ensures
        !dirty_after.contains(node),
{
    if dirty_after.contains(node) {
        assert(write_targets(before, node));
    }
}

} // verus!
