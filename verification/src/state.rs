//! The stateful sync protocol.
//!
//! A *stateful value* is a named, typed unit of server-authoritative state,
//! mirrored on the client.  Two value shapes share one lifecycle and differ
//! only in update application: a *Single* value is replaced wholesale, a
//! *Multiple* value is an ordered collection updated per key, growing over
//! gaps with the element type's default.  An update carries the value's
//! name; a mirror applies only updates whose name matches its own and drops
//! the rest silently — expected multiplexing noise, not an error.

use vstd::prelude::*;
use crate::signal::{DirtySet, Signal, SignalData};
use crate::server::ToClientEvent;
use vstd::string::StringExecFns;

verus! {

/// A wire update for a named stateful value: the value's name and the
/// payload — a whole replacement, or a sequence of `(key, value)` pairs.
pub struct StatefulClientEvent<D> {
    pub state_key: String,
    pub event: D,
}

/// A type with a fill value, used to grow a keyed collection across a gap.
pub trait DefaultValue: Sized {
    /// Whether `r` is the fill value.
    spec fn is_default(r: Self) -> bool;

    fn default_value() -> (r: Self)
        ensures
            Self::is_default(r),
    ;
}

impl DefaultValue for u32 {
    open spec fn is_default(r: u32) -> bool {
        r == 0u32
    }

    fn default_value() -> (r: u32) {
        0
    }
}

impl DefaultValue for u64 {
    open spec fn is_default(r: u64) -> bool {
        r == 0u64
    }

    fn default_value() -> (r: u64) {
        0
    }
}

impl DefaultValue for i32 {
    open spec fn is_default(r: i32) -> bool {
        r == 0i32
    }

    fn default_value() -> (r: i32) {
        0
    }
}

impl DefaultValue for bool {
    open spec fn is_default(r: bool) -> bool {
        r == false
    }

    fn default_value() -> (r: bool) {
        false
    }
}

impl DefaultValue for String {
    open spec fn is_default(r: String) -> bool {
        r@ =~= Seq::<char>::empty()
    }

    fn default_value() -> (r: String) {
        String::new()
    }
}

/// What a key-addressed write leaves behind: within bounds it updates the
/// one entry; beyond them it grows the collection to `key + 1` entries,
/// filling the gap with defaults.
pub open spec fn set_at_spec<T: DefaultValue>(cs: Seq<T>, key: u32, value: T, n: Seq<T>) -> bool {
    if (key as int) < cs.len() {
        n =~= cs.update(key as int, value)
    } else {
        &&& n.len() == key + 1
        &&& forall|i: int| 0 <= i < cs.len() ==> n[i] == cs[i]
        &&& forall|i: int| cs.len() <= i < key ==> T::is_default(#[trigger] n[i])
        &&& n[key as int] == value
    }
}

/// An ordered or keyed collection, addressable and updatable per key.
pub trait InnerCollection: Sized {
    type Inner: DefaultValue;

    /// The entries, by key order.
    spec fn contents(&self) -> Seq<Self::Inner>;

    fn len(&self) -> (r: u32)
        requires
            self.contents().len() <= u32::MAX,
        ensures
            r == self.contents().len(),
    ;

    fn is_empty(&self) -> (r: bool)
        requires
            self.contents().len() <= u32::MAX,
        ensures
            r == (self.contents().len() == 0),
    ;

    /// Writes `value` under `key`, growing over a gap with defaults rather
    /// than failing: the client-side mirror may be shorter than the
    /// server's collection.
    fn set_at(&mut self, key: u32, value: Self::Inner)
        requires
            old(self).contents().len() <= u32::MAX as int + 1,
        ensures
            set_at_spec(old(self).contents(), key, value, final(self).contents()),
    ;
}

impl<T: DefaultValue> InnerCollection for Vec<T> {
    type Inner = T;

    open spec fn contents(&self) -> Seq<T> {
        self@
    }

    fn len(&self) -> (r: u32) {
        self.len() as u32
    }

    fn is_empty(&self) -> (r: bool) {
        self.len() == 0
    }

    fn set_at(&mut self, key: u32, value: T) {
        if (key as usize) < self.len() {
            self.set(key as usize, value);
        } else {
            while self.len() < key as usize
                invariant
                    old(self)@.len() <= self@.len() <= key,
                    forall|i: int| 0 <= i < old(self)@.len() ==> self@[i] == old(self)@[i],
                    forall|i: int| old(self)@.len() <= i < self@.len()
                        ==> T::is_default(#[trigger] self@[i]),
                decreases key as int - self@.len(),
            {
                self.push(T::default_value());
            }
            self.push(value);
        }
    }
}

/// The result of applying `(key, value)` pairs in order through
/// [`set_at_spec`].
pub open spec fn apply_pairs_spec<T: DefaultValue>(
    cs: Seq<T>,
    pairs: Seq<(u32, T)>,
    n: Seq<T>,
) -> bool
    decreases pairs.len(),
{
    if pairs.len() == 0 {
        n =~= cs
    } else {
        exists|mid: Seq<T>|
            #[trigger] set_at_spec(cs, pairs[0].0, pairs[0].1, mid) && apply_pairs_spec(
                mid,
                pairs.skip(1),
                n,
            )
    }
}

/// The keys named by a pair sequence.
pub open spec fn pair_keys<T>(pairs: Seq<(u32, T)>) -> Seq<u32> {
    pairs.map_values(|p: (u32, T)| p.0)
}

/// Marks a Single stateful value's shape.
pub struct IsSingleValue;

/// Marks a Multiple stateful value's shape.
pub struct IsMultipleValue;

/// The client-side mirror of a stateful value: the locally cached copy and
/// an optional change-callback token that the application interprets.
pub struct StateInner<D, M> {
    pub inner: D,
    pub on_update: Option<u32>,
    pub marker: M,
}

/// Update application for one mirror shape: relates the mirror before the
/// update, the payload, the mirror after it, and the affected keys.
pub trait InnerUpdate<D>: Sized {
    spec fn apply_rel(pre: Self, update: D, post: Self, keys: Seq<u32>) -> bool;

    fn apply_update(&mut self, update: D) -> (r: Vec<u32>)
        requires
            Self::apply_pre(*old(self)),
        ensures
            Self::apply_rel(*old(self), update, *final(self), r@),
    ;

    /// What a mirror must satisfy before an update lands on it.
    spec fn apply_pre(pre: Self) -> bool;
}

impl<D> InnerUpdate<D> for StateInner<D, IsSingleValue> {
    /// A Single update replaces the cached value outright and affects no
    /// keys.
    open spec fn apply_rel(pre: Self, update: D, post: Self, keys: Seq<u32>) -> bool {
        &&& post.inner == update
        &&& post.on_update == pre.on_update
        &&& keys =~= Seq::<u32>::empty()
    }

    open spec fn apply_pre(pre: Self) -> bool {
        true
    }

    fn apply_update(&mut self, update: D) -> (r: Vec<u32>) {
        self.inner = update;
        Vec::new()
    }
}

impl<C: InnerCollection> InnerUpdate<Vec<(u32, C::Inner)>> for StateInner<C, IsMultipleValue> {
    /// A Multiple update applies each `(key, value)` pair in order via
    /// key-addressed write-or-grow, and affects exactly the pairs' keys.
    open spec fn apply_rel(
        pre: Self,
        update: Vec<(u32, C::Inner)>,
        post: Self,
        keys: Seq<u32>,
    ) -> bool {
        &&& apply_pairs_spec(pre.inner.contents(), update@, post.inner.contents())
        &&& post.on_update == pre.on_update
        &&& keys =~= pair_keys(update@)
    }

    open spec fn apply_pre(pre: Self) -> bool {
        pre.inner.contents().len() <= u32::MAX as int + 1
    }

    fn apply_update(&mut self, update: Vec<(u32, C::Inner)>) -> (r: Vec<u32>) {
        let mut keys: Vec<u32> = Vec::new();
        let mut pairs = update;
        let ghost all = pairs@;
        let ghost done: int = 0;
        proof {
            assert(pair_keys(all).take(0) =~= Seq::<u32>::empty());
        }
        loop
            invariant
                0 <= done <= all.len(),
                pairs@ =~= all.skip(done),
                keys@ =~= pair_keys(all).take(done),
                self.inner.contents().len() <= u32::MAX as int + 1,
                self.on_update == old(self).on_update,
                apply_pairs_spec(
                    old(self).inner.contents(),
                    all.take(done),
                    self.inner.contents(),
                ),
            ensures
                done == all.len(),
                keys@ =~= pair_keys(all).take(done),
                self.on_update == old(self).on_update,
                apply_pairs_spec(
                    old(self).inner.contents(),
                    all.take(done),
                    self.inner.contents(),
                ),
            decreases pairs@.len(),
        {
            if pairs.len() == 0 {
                break ;
            }
            let ghost mid = self.inner.contents();
            let (key, value) = pairs.remove(0);
            proof {
                assert((key, value) == all[done]);
            }
            self.inner.set_at(key, value);
            keys.push(key);
            proof {
                done = done + 1;
                assert(pairs@ =~= all.skip(done));
                assert(keys@ =~= pair_keys(all).take(done));
                lemma_apply_pairs_snoc(
                    old(self).inner.contents(),
                    all.take(done - 1),
                    all[done - 1],
                    mid,
                    self.inner.contents(),
                );
                assert(all.take(done) =~= all.take(done - 1).push(all[done - 1]));
            }
        }
        proof {
            assert(all.take(all.len() as int) =~= all);
            assert(pair_keys(all).take(all.len() as int) =~= pair_keys(all));
        }
        keys
    }
}

/// A client-side mirror of a named stateful value, with the reactive cell
/// that tracks its dependents.  `M` tags the value shape.
pub struct StateEvent<D, M> {
    pub state_key: String,
    pub data: Signal<StateInner<D, M>>,
}

impl<D, M> StateEvent<D, M> {
    pub open spec fn wf(&self) -> bool {
        self.data.inner.wf()
    }

    /// The cached copy.
    pub open spec fn cached(&self) -> D {
        self.data.inner.value_spec().inner
    }

    /// A fresh mirror for the value named `state_key`, holding `initial`.
    pub fn new(state_key: String, initial: D, marker: M) -> (r: StateEvent<D, M>)
        ensures
            r.wf(),
            r.state_key == state_key,
            r.cached() == initial,
            r.data.inner.value_spec().on_update is None,
            r.data.inner.deps() =~= Seq::<u32>::empty(),
            r.data.inner.keyed_deps() =~= Seq::<(u32, u32)>::empty(),
    {
        StateEvent {
            state_key,
            data: Signal::new(StateInner { inner: initial, on_update: None, marker }),
        }
    }

    /// Reads the cached copy; a node actively rendering registers as an
    /// unkeyed dependent.
    pub fn get(&mut self, current_dom_id: u32) -> (r: &D)
        requires
            old(self).wf(),
        ensures
            final(self).wf(),
            *r == old(self).cached(),
            final(self).state_key == old(self).state_key,
            final(self).data.inner.value_spec() == old(self).data.inner.value_spec(),
            final(self).data.inner.keyed_deps() == old(self).data.inner.keyed_deps(),
            final(self).data.inner.deps() == if current_dom_id > 0 && !old(
                self,
            ).data.inner.deps().contains(current_dom_id) {
                old(self).data.inner.deps().push(current_dom_id)
            } else {
                old(self).data.inner.deps()
            },
    {
        &self.data.get(current_dom_id).inner
    }

    /// Reads the cached copy; a node actively rendering registers against
    /// `index`, overwriting any previous registration for that key.
    pub fn get_with_index(&mut self, index: u32, current_dom_id: u32) -> (r: &D)
        requires
            old(self).wf(),
        ensures
            final(self).wf(),
            *r == old(self).cached(),
            final(self).state_key == old(self).state_key,
            final(self).data.inner.value_spec() == old(self).data.inner.value_spec(),
            final(self).data.inner.deps() == old(self).data.inner.deps(),
            current_dom_id > 0 ==> final(self).data.inner.keyed_dep_of(index, current_dom_id),
            current_dom_id > 0 ==> forall|k: u32, n: u32|
                k != index ==> (#[trigger] final(self).data.inner.keyed_dep_of(k, n)
                    == old(self).data.inner.keyed_dep_of(k, n)),
            current_dom_id > 0 ==> forall|n: u32|
                #[trigger] final(self).data.inner.keyed_dep_of(index, n) == (n
                    == current_dom_id),
            current_dom_id == 0 ==> final(self).data.inner.keyed_deps() == old(
                self,
            ).data.inner.keyed_deps(),
    {
        &self.data.get_with_key(index, current_dom_id).inner
    }

    /// Declares the change callback: the token is handed back to the
    /// application whenever an update lands on this mirror.
    pub fn on_update(self, handler: u32) -> (r: StateEvent<D, M>)
        ensures
            r.state_key == self.state_key,
            r.cached() == self.cached(),
            r.data.inner.value_spec().on_update == Some(handler),
            r.data.inner.deps() == self.data.inner.deps(),
            r.data.inner.keyed_deps() == self.data.inner.keyed_deps(),
    {
        let mut me = self;
        me.data.get_mut().on_update = Some(handler);
        me
    }

    /// Declares the change callback in place, for a mirror held in the
    /// subscription table.
    pub fn set_on_update(&mut self, handler: u32)
        ensures
            final(self).state_key == old(self).state_key,
            final(self).cached() == old(self).cached(),
            final(self).data.inner.value_spec().on_update == Some(handler),
            final(self).data.inner.deps() == old(self).data.inner.deps(),
            final(self).data.inner.keyed_deps() == old(self).data.inner.keyed_deps(),
            final(self).wf() == old(self).wf(),
    {
        self.data.get_mut().on_update = Some(handler);
    }

    /// Applies an incoming update.  The mirror is only ever mutated by an
    /// update whose declared name matches its own; on a mismatch nothing —
    /// neither the mirror nor the dirty set — changes.  On a match, the
    /// payload is applied per the value shape, every unkeyed dependent is
    /// marked dirty, and exactly the keyed dependents registered against an
    /// affected key are marked dirty.  Returns whether the update was
    /// applied (and so whether the change callback should fire).
    pub fn set<U>(&mut self, update: StatefulClientEvent<U>, to_re_render: &mut DirtySet) -> (r:
        bool) where StateInner<D, M>: InnerUpdate<U>
        requires
            old(self).wf(),
            old(to_re_render).wf(),
            <StateInner<D, M> as InnerUpdate<U>>::apply_pre(old(self).data.inner.value_spec()),
        ensures
            final(self).wf(),
            final(to_re_render).wf(),
            r == (update.state_key@ == old(self).state_key@),
            forall|n: u32| old(to_re_render)@.contains(n) ==> final(to_re_render)@.contains(n),
            !r ==> *final(self) == *old(self) && *final(to_re_render) == *old(to_re_render),
            r ==> final(self).state_key == old(self).state_key
                && final(self).data.inner.deps() == old(self).data.inner.deps()
                && final(self).data.inner.keyed_deps() == old(self).data.inner.keyed_deps()
                && (forall|n: u32| old(self).data.inner.deps().contains(n)
                    ==> final(to_re_render)@.contains(n))
                && exists|keys: Seq<u32>|
                {
                    &&& #[trigger] <StateInner<D, M> as InnerUpdate<U>>::apply_rel(
                        old(self).data.inner.value_spec(),
                        update.event,
                        final(self).data.inner.value_spec(),
                        keys,
                    )
                    &&& forall|n: u32| old(self).data.inner.deps().contains(n)
                        ==> final(to_re_render)@.contains(n)
                    &&& forall|k: u32, n: u32|
                        #[trigger] old(self).data.inner.keyed_dep_of(k, n) && keys.contains(k)
                            ==> final(to_re_render)@.contains(n)
                    &&& forall|n: u32| final(to_re_render)@.contains(n)
                        ==> old(to_re_render)@.contains(n)
                            || old(self).data.inner.deps().contains(n)
                            || exists|k: u32|
                                #[trigger] old(self).data.inner.keyed_dep_of(k, n)
                                    && keys.contains(k)
                },
    {
        if !(self.state_key == update.state_key) {
            return false;
        }
        let ghost pre_mirror = self.data.inner.value_spec();
        let keys = self.data.get_mut().apply_update(update.event);
        self.data.invalidate_keys(&keys, to_re_render);
        proof {
            let ghost ks = keys@;
            assert(pre_mirror == old(self).data.inner.value_spec());
            assert(<StateInner<D, M> as InnerUpdate<U>>::apply_rel(
                old(self).data.inner.value_spec(),
                update.event,
                self.data.inner.value_spec(),
                ks,
            ));
            assert(self.data.inner.deps() == old(self).data.inner.deps());
            assert(self.data.inner.keyed_deps() == old(self).data.inner.keyed_deps());
            assert(forall|n: u32| old(self).data.inner.deps().contains(n)
                ==> to_re_render@.contains(n));
            assert forall|k: u32, n: u32|
                #[trigger] old(self).data.inner.keyed_dep_of(k, n) && ks.contains(k)
                implies to_re_render@.contains(n) by {
                assert(self.data.inner.keyed_dep_of(k, n));
            }
            assert forall|n: u32| to_re_render@.contains(n)
                implies old(to_re_render)@.contains(n)
                    || old(self).data.inner.deps().contains(n)
                    || exists|k: u32|
                        #[trigger] old(self).data.inner.keyed_dep_of(k, n)
                            && ks.contains(k) by {
                if !old(to_re_render)@.contains(n) && !old(self).data.inner.deps().contains(n) {
                    let k = choose|k: u32|
                        #[trigger] self.data.inner.keyed_dep_of(k, n) && keys@.contains(k);
                    assert(old(self).data.inner.keyed_dep_of(k, n) && ks.contains(k));
                }
            }
        }
        true
    }
}

/// The mirror of one keyed entry of a Multiple stateful value: the key it
/// watches and the locally cached copy of that entry alone.
pub struct PartialStateInner<D> {
    pub key: u32,
    pub data: D,
}

/// A client-side mirror of a single entry of a named Multiple value.
pub struct PartialStateEvent<D> {
    pub state_key: String,
    pub data: Signal<PartialStateInner<D>>,
}

/// The value carried for `key` by the first matching pair, if any.
pub open spec fn find_pair<D>(pairs: Seq<(u32, D)>, key: u32) -> Option<D>
    decreases pairs.len(),
{
    if pairs.len() == 0 {
        None
    } else if pairs[0].0 == key {
        Some(pairs[0].1)
    } else {
        find_pair(pairs.skip(1), key)
    }
}

impl<D> PartialStateEvent<D> {
    pub open spec fn wf(&self) -> bool {
        self.data.inner.wf()
    }

    /// The cached copy of the watched entry.
    pub open spec fn cached(&self) -> D {
        self.data.inner.value_spec().data
    }

    /// The key this mirror watches.
    pub open spec fn watched_key(&self) -> u32 {
        self.data.inner.value_spec().key
    }

    /// A fresh mirror for entry `key` of the value named `state_key`.
    pub fn new(state_key: String, key: u32, initial: D) -> (r: PartialStateEvent<D>)
        ensures
            r.wf(),
            r.state_key == state_key,
            r.watched_key() == key,
            r.cached() == initial,
            r.data.inner.deps() =~= Seq::<u32>::empty(),
            r.data.inner.keyed_deps() =~= Seq::<(u32, u32)>::empty(),
    {
        PartialStateEvent { state_key, data: Signal::new(PartialStateInner { key, data: initial }) }
    }

    /// Reads the cached entry; a node actively rendering registers as an
    /// unkeyed dependent.
    pub fn get(&mut self, current_dom_id: u32) -> (r: &D)
        requires
            old(self).wf(),
        ensures
            final(self).wf(),
            *r == old(self).cached(),
            final(self).state_key == old(self).state_key,
            final(self).data.inner.value_spec() == old(self).data.inner.value_spec(),
            final(self).data.inner.keyed_deps() == old(self).data.inner.keyed_deps(),
            final(self).data.inner.deps() == if current_dom_id > 0 && !old(
                self,
            ).data.inner.deps().contains(current_dom_id) {
                old(self).data.inner.deps().push(current_dom_id)
            } else {
                old(self).data.inner.deps()
            },
    {
        &self.data.get(current_dom_id).data
    }

    /// Applies an incoming Multiple delta to this one-entry mirror: on a
    /// name match, the first pair addressing the watched key — if any —
    /// replaces the cached entry, and the dependents are invalidated as for
    /// a Multiple update affecting that key alone.  Name mismatches and
    /// deltas that do not address the watched key change nothing.
    pub fn set(
        &mut self,
        update: StatefulClientEvent<Vec<(u32, D)>>,
        to_re_render: &mut DirtySet,
    ) -> (r: bool)
        requires
            old(self).wf(),
            old(to_re_render).wf(),
        ensures
            final(self).wf(),
            final(to_re_render).wf(),
            r == (update.state_key@ == old(self).state_key@ && find_pair(
                update.event@,
                old(self).watched_key(),
            ) is Some),
            forall|n: u32| old(to_re_render)@.contains(n) ==> final(to_re_render)@.contains(n),
            !r ==> *final(self) == *old(self) && *final(to_re_render) == *old(to_re_render),
            r ==> final(self).state_key == old(self).state_key
                && final(self).watched_key() == old(self).watched_key()
                && Some(final(self).cached()) == find_pair(
                    update.event@,
                    old(self).watched_key(),
                )
                && final(self).data.inner.deps() == old(self).data.inner.deps()
                && final(self).data.inner.keyed_deps() == old(self).data.inner.keyed_deps()
                && (forall|n: u32| old(self).data.inner.deps().contains(n)
                    ==> final(to_re_render)@.contains(n))
                && (forall|n: u32|
                    #[trigger] old(self).data.inner.keyed_dep_of(old(self).watched_key(), n)
                        ==> final(to_re_render)@.contains(n))
                && (forall|n: u32| final(to_re_render)@.contains(n)
                    ==> old(to_re_render)@.contains(n)
                        || old(self).data.inner.deps().contains(n)
                        || exists|k: u32|
                            #[trigger] old(self).data.inner.keyed_dep_of(k, n) && k == old(
                                self,
                            ).watched_key()),
    {
        if !(self.state_key == update.state_key) {
            return false;
        }
        let watched = self.data.peek().key;
        let mut pairs = update.event;
        let ghost all = pairs@;
        let ghost done: int = 0;
        loop
            invariant
                0 <= done <= all.len(),
                pairs@ =~= all.skip(done),
                forall|m: int| 0 <= m < done ==> (#[trigger] all[m]).0 != watched,
                *self == *old(self),
                *to_re_render == *old(to_re_render),
                watched == old(self).watched_key(),
                self.wf(),
                to_re_render.wf(),
                all =~= update.event@,
                update.state_key@ == old(self).state_key@,
            ensures
                done == all.len(),
                forall|m: int| 0 <= m < done ==> (#[trigger] all[m]).0 != watched,
                *self == *old(self),
                *to_re_render == *old(to_re_render),
            decreases pairs@.len(),
        {
            if pairs.len() == 0 {
                break ;
            }
            let (key, value) = pairs.remove(0);
            proof {
                assert((key, value) == all[done]);
            }
            if key == watched {
                proof {
                    lemma_find_pair_at(all, watched, done);
                }
                let mirror = self.data.get_mut();
                mirror.data = value;
                let affected: Vec<u32> = vec![watched];
                proof {
                    assert(affected@.contains(watched)) by {
                        assert(affected@[0] == watched);
                    }
                    assert forall|k: u32| affected@.contains(k) implies k == watched by {
                        let m = choose|m: int| 0 <= m < affected@.len() && affected@[m] == k;
                        assert(affected@[0] == watched);
                    }
                }
                self.data.invalidate_keys(&affected, to_re_render);
                proof {
                    assert(self.state_key == old(self).state_key);
                    assert(self.watched_key() == old(self).watched_key());
                    assert(self.cached() == value);
                    assert(all[done] == (key, value));
                    assert(find_pair(all, watched) == Some(value));
                    assert(all == update.event@);
                    assert(Some(self.cached()) == find_pair(update.event@, old(self).watched_key()));
                    assert(self.data.inner.deps() == old(self).data.inner.deps());
                    assert(self.data.inner.keyed_deps() == old(self).data.inner.keyed_deps());
                    assert forall|n: u32|
                        #[trigger] old(self).data.inner.keyed_dep_of(old(self).watched_key(), n)
                        implies to_re_render@.contains(n) by {
                        assert(self.data.inner.keyed_dep_of(watched, n));
                        assert(affected@.contains(watched));
                    }
                    assert forall|n: u32| to_re_render@.contains(n)
                        implies old(to_re_render)@.contains(n)
                            || old(self).data.inner.deps().contains(n)
                            || exists|k: u32|
                                #[trigger] old(self).data.inner.keyed_dep_of(k, n) && k == old(
                                    self,
                                ).watched_key() by {
                        if !old(to_re_render)@.contains(n)
                            && !old(self).data.inner.deps().contains(n) {
                            let k = choose|k: u32|
                                #[trigger] self.data.inner.keyed_dep_of(k, n)
                                    && affected@.contains(k);
                            assert(k == watched);
                            assert(old(self).data.inner.keyed_dep_of(k, n));
                        }
                    }
                }
                return true;
            }
            proof {
                done = done + 1;
                assert(pairs@ =~= all.skip(done));
            }
        }
        proof {
            lemma_find_pair_none(all, watched);
        }
        false
    }
}

/// When the pairs before `i` miss `key` and pair `i` hits it, the first
/// match carries pair `i`'s value.
proof fn lemma_find_pair_at<D>(pairs: Seq<(u32, D)>, key: u32, i: int)
    requires
        0 <= i < pairs.len(),
        forall|m: int| 0 <= m < i ==> (#[trigger] pairs[m]).0 != key,
        pairs[i].0 == key,
    ensures
        find_pair(pairs, key) == Some(pairs[i].1),
    decreases i,
{
    if i == 0 {
    } else {
        assert(pairs.skip(1)[i - 1] == pairs[i]);
        assert(forall|m: int| 0 <= m < i - 1 ==> (#[trigger] pairs.skip(1)[m]) == pairs[m + 1]);
        lemma_find_pair_at(pairs.skip(1), key, i - 1);
    }
}

/// When no pair carries `key`, there is no first match.
proof fn lemma_find_pair_none<D>(pairs: Seq<(u32, D)>, key: u32)
    requires
        forall|m: int| 0 <= m < pairs.len() ==> (#[trigger] pairs[m]).0 != key,
    ensures
        find_pair(pairs, key) is None,
    decreases pairs.len(),
{
    if pairs.len() > 0 {
        assert(forall|m: int| 0 <= m < pairs.skip(1).len()
            ==> (#[trigger] pairs.skip(1)[m]) == pairs[m + 1]);
        lemma_find_pair_none(pairs.skip(1), key);
    }
}

/// Keyed isolation: an update affecting `keys` never dirties a node that is
/// not unkeyed-registered, is registered against no affected key, and was
/// not already pending.
pub proof fn lemma_keyed_isolation<T>(
    sig: SignalData<T>,
    dirty_before: Seq<u32>,
    dirty_after: Seq<u32>,
    keys: Seq<u32>,
    node: u32,
)
    requires
        !sig.deps().contains(node),
        forall|k: u32| #[trigger] sig.keyed_dep_of(k, node) ==> !keys.contains(k),
        !dirty_before.contains(node),
        // what a matching update ensures of the dirty set
        forall|n: u32| dirty_after.contains(n) ==> dirty_before.contains(n)
            || sig.deps().contains(n)
            || exists|k: u32| #[trigger] sig.keyed_dep_of(k, n) && keys.contains(k),
    ensures
        !dirty_after.contains(node),
{
    if dirty_after.contains(node) {
        let k = choose|k: u32| #[trigger] sig.keyed_dep_of(k, node) && keys.contains(k);
        assert(!keys.contains(k));
    }
}

/// Whether a name can stand inside a JSON string without escaping: stateful
/// value names are plain identifiers.
pub open spec fn json_plain(s: Seq<char>) -> bool {
    forall|i: int| 0 <= i < s.len() ==> s[i] != '"' && s[i] != '\\'
}

/// The wire envelope of stateful traffic: the value's name and the payload,
/// already in its wire form, under the `stateKey` and `event` keys.
pub open spec fn stateful_envelope(name: Seq<char>, payload: Seq<char>) -> Seq<char> {
    "{\"stateKey\":\""@ + name + "\",\"event\":"@ + payload + "}"@
}

/// Builds the wire envelope of stateful traffic.
pub fn stateful_event_json(name: &str, payload: &str) -> (r: String)
    ensures
        r@ =~= stateful_envelope(name@, payload@),
{
    let mut out = String::new();
    out.append("{\"stateKey\":\"");
    out.append(name);
    out.append("\",\"event\":");
    out.append(payload);
    out.append("}");
    proof {
        reveal_strlit("{\"stateKey\":\"");
        reveal_strlit("\",\"event\":");
        reveal_strlit("}");
    }
    out
}

/// The wire form of one `(key, value)` pair: a two-element array holding
/// the key and the value's wire text.
pub open spec fn pair_json(p: (u32, Seq<char>)) -> Seq<char> {
    "["@ + crate::numfmt::dec_str(p.0 as nat) + ","@ + p.1 + "]"@
}

/// The comma-separated wire forms of several pairs.
pub open spec fn pairs_json_items(ps: Seq<(u32, Seq<char>)>) -> Seq<char>
    decreases ps.len(),
{
    if ps.len() == 0 {
        Seq::<char>::empty()
    } else if ps.len() == 1 {
        pair_json(ps[0])
    } else {
        pair_json(ps[0]) + ","@ + pairs_json_items(ps.skip(1))
    }
}

/// The wire form of a keyed delta: the pairs, as a JSON array.
pub open spec fn pairs_json(ps: Seq<(u32, Seq<char>)>) -> Seq<char> {
    "["@ + pairs_json_items(ps) + "]"@
}

/// The keys and value views of a pair vector.
pub open spec fn pair_views(ps: Seq<(u32, String)>) -> Seq<(u32, Seq<char>)> {
    ps.map_values(|p: (u32, String)| (p.0, p.1@))
}

/// Splitting the last pair off the comma-separated wire form.
proof fn lemma_pairs_json_items_snoc(ps: Seq<(u32, Seq<char>)>, last: (u32, Seq<char>))
    ensures
        pairs_json_items(ps.push(last)) =~= if ps.len() == 0 {
            pair_json(last)
        } else {
            pairs_json_items(ps) + ","@ + pair_json(last)
        },
    decreases ps.len(),
{
    let pushed = ps.push(last);
    if ps.len() == 0 {
        assert(pushed.len() == 1);
        assert(pushed[0] == last);
    } else {
        assert(pushed[0] == ps[0]);
        assert(pushed.skip(1) =~= ps.skip(1).push(last));
        lemma_pairs_json_items_snoc(ps.skip(1), last);
        if ps.len() == 1 {
            assert(ps.skip(1).len() == 0);
            assert(pairs_json_items(pushed) == pair_json(pushed[0]) + ","@ + pairs_json_items(
                pushed.skip(1),
            ));
            assert(pairs_json_items(ps) == pair_json(ps[0]));
        } else {
            assert(pairs_json_items(pushed) == pair_json(pushed[0]) + ","@ + pairs_json_items(
                pushed.skip(1),
            ));
            assert(pairs_json_items(ps) == pair_json(ps[0]) + ","@ + pairs_json_items(
                ps.skip(1),
            ));
        }
    }
}

/// Builds the wire form of a keyed delta.
#[verifier::loop_isolation(false)]
pub fn pairs_json_text(ps: &Vec<(u32, String)>) -> (r: String)
    ensures
        r@ =~= pairs_json(pair_views(ps@)),
{
    let mut out = String::new();
    out.append("[");
    proof {
        reveal_strlit("[");
        reveal_strlit("]");
        reveal_strlit(",");
        assert(pair_views(ps@.take(0)) =~= Seq::<(u32, Seq<char>)>::empty());
    }
    let mut i: usize = 0;
    while i < ps.len()
        invariant
            0 <= i <= ps@.len(),
            out@ =~= "["@ + pairs_json_items(pair_views(ps@.take(i as int))),
        decreases ps@.len() - i,
    {
        if i > 0 {
            out.append(",");
        }
        out.append("[");
        let key_text = crate::numfmt::u32_to_string(ps[i].0);
        out.append(key_text.as_str());
        out.append(",");
        out.append(ps[i].1.as_str());
        out.append("]");
        proof {
            lemma_pairs_json_items_snoc(
                pair_views(ps@.take(i as int)),
                (ps@[i as int].0, ps@[i as int].1@),
            );
            assert(pair_views(ps@.take(i + 1)) =~= pair_views(ps@.take(i as int)).push(
                (ps@[i as int].0, ps@[i as int].1@),
            ));
        }
        i += 1;
    }
    out.append("]");
    proof {
        assert(ps@.take(ps@.len() as int) =~= ps@);
    }
    out
}

/// The pairs of a full snapshot: every entry under its index.
pub open spec fn enumerated_views(items: Seq<String>) -> Seq<(u32, Seq<char>)> {
    Seq::new(items.len(), |i: int| (i as u32, items[i]@))
}

/// A named, typed unit of server-authoritative state.  Applications declare
/// one implementing type per stateful value; the name must be globally
/// unique, and plain enough to stand in a JSON string unescaped.
pub trait Stateful: Sized {
    /// The payload type the application mirrors.
    type Data;

    /// The value's name, at the specification level.
    spec fn name_spec() -> Seq<char>;

    fn name() -> (r: &'static str)
        ensures
            r@ == Self::name_spec(),
    ;

    /// Builds the message that replaces the whole Single value on every
    /// subscribed client.  `payload` is the value's wire text.
    fn as_single_update(payload: String) -> (r: ToClientEvent)
        requires
            json_plain(Self::name_spec()),
        ensures
            (r matches ToClientEvent::Custom { event } && event@ =~= stateful_envelope(
                Self::name_spec(),
                payload@,
            )),
    {
        ToClientEvent::Custom {
            event: stateful_event_json(Self::name(), payload.as_str()),
        }
    }
}

/// The server-side builders of Multiple-value traffic: a full snapshot
/// enumerating every entry, and an incremental delta of `(key, value)`
/// pairs.
pub trait MultipleValueUpdate: Stateful {
    /// Builds the full-snapshot reply: every current entry, keyed by its
    /// index.  Each item is one entry's wire text.
    #[verifier::loop_isolation(false)]
    fn as_full_update(data: &Vec<String>) -> (r: ToClientEvent)
        requires
            json_plain(Self::name_spec()),
            data@.len() <= u32::MAX,
        ensures
            (r matches ToClientEvent::Custom { event } && event@ =~= stateful_envelope(
                Self::name_spec(),
                pairs_json(enumerated_views(data@)),
            )),
    {
        let mut pairs: Vec<(u32, String)> = Vec::new();
        let mut i: usize = 0;
        while i < data.len()
            invariant
                0 <= i <= data@.len(),
                pairs@.len() == i,
                forall|k: int| 0 <= k < i
                    ==> (#[trigger] pairs@[k]).0 == k as u32 && pairs@[k].1@ == data@[k]@,
            decreases data@.len() - i,
        {
            let item = data[i].clone();
            pairs.push((i as u32, item));
            i += 1;
        }
        proof {
            assert forall|k: int| 0 <= k < pairs@.len()
                implies pair_views(pairs@)[k] == enumerated_views(data@)[k] by {
                assert(pair_views(pairs@)[k] == (pairs@[k].0, pairs@[k].1@));
                assert(enumerated_views(data@)[k] == (k as u32, data@[k]@));
            }
            assert(pair_views(pairs@) =~= enumerated_views(data@));
        }
        let body = pairs_json_text(&pairs);
        ToClientEvent::Custom {
            event: stateful_event_json(Self::name(), body.as_str()),
        }
    }

    /// Builds an incremental delta carrying one `(key, value)` pair.
    fn as_update(key: u32, value: String) -> (r: ToClientEvent)
        requires
            json_plain(Self::name_spec()),
        ensures
            (r matches ToClientEvent::Custom { event } && event@ =~= stateful_envelope(
                Self::name_spec(),
                pairs_json(seq![(key, value@)]),
            )),
    {
        let pairs: Vec<(u32, String)> = vec![(key, value)];
        proof {
            assert(pair_views(pairs@) =~= seq![(pairs@[0].0, pairs@[0].1@)]);
        }
        let body = pairs_json_text(&pairs);
        ToClientEvent::Custom {
            event: stateful_event_json(Self::name(), body.as_str()),
        }
    }
}

/// Marks the payload shapes a stateful kind supports.
pub trait Valuable<M> {}

impl<C: InnerCollection> Valuable<IsMultipleValue> for C {}

/// Full-then-partial convergence: once a full snapshot has filled the
/// mirror, a keyed update within the snapshot's bounds leaves exactly the
/// snapshot with that one entry replaced.
pub proof fn lemma_full_then_partial_convergence<T: DefaultValue>(
    snapshot: Seq<T>,
    key: u32,
    value: T,
    after: Seq<T>,
)
    requires
        (key as int) < snapshot.len(),
        set_at_spec(snapshot, key, value, after),
    ensures
        after =~= snapshot.update(key as int, value),
{
}

/// Growth on gap: a keyed update beyond the mirror's length grows it to
/// `key + 1` entries, keeps every existing entry, fills the gap with the
/// element type's default, and puts the value at `key`.
pub proof fn lemma_growth_on_gap<T: DefaultValue>(mirror: Seq<T>, key: u32, value: T, after: Seq<T>)
    requires
        mirror.len() <= key,
        set_at_spec(mirror, key, value, after),
    ensures
        after.len() == key + 1,
        forall|i: int| 0 <= i < mirror.len() ==> after[i] == mirror[i],
        forall|i: int| mirror.len() <= i < key ==> T::is_default(#[trigger] after[i]),
        after[key as int] == value,
{
}

/// Applying keyed updates never grows a mirror past the largest key plus
/// one: each write leaves either the old length or `key + 1` entries.
pub proof fn lemma_apply_pairs_len_bound<T: DefaultValue>(
    cs: Seq<T>,
    pairs: Seq<(u32, T)>,
    n: Seq<T>,
)
    requires
        apply_pairs_spec(cs, pairs, n),
        cs.len() <= u32::MAX as int + 1,
    ensures
        n.len() <= u32::MAX as int + 1,
    decreases pairs.len(),
{
    if pairs.len() == 0 {
    } else {
        let mid = choose|mid: Seq<T>|
            #[trigger] set_at_spec(cs, pairs[0].0, pairs[0].1, mid) && apply_pairs_spec(
                mid,
                pairs.skip(1),
                n,
            );
        lemma_apply_pairs_len_bound(mid, pairs.skip(1), n);
    }
}

/// Appending one more pair to an update extends its application by one
/// key-addressed write.
proof fn lemma_apply_pairs_snoc<T: DefaultValue>(
    cs: Seq<T>,
    pairs: Seq<(u32, T)>,
    last: (u32, T),
    mid: Seq<T>,
    n: Seq<T>,
)
    requires
        apply_pairs_spec(cs, pairs, mid),
        set_at_spec(mid, last.0, last.1, n),
    ensures
        apply_pairs_spec(cs, pairs.push(last), n),
    decreases pairs.len(),
{
    if pairs.len() == 0 {
        assert(mid =~= cs);
        assert(pairs.push(last)[0] == last);
        assert(pairs.push(last).skip(1) =~= Seq::<(u32, T)>::empty());
        assert(set_at_spec(cs, last.0, last.1, n)) by {
            lemma_set_at_congruence(mid, cs, last.0, last.1, n);
        }
        assert(apply_pairs_spec(n, pairs.push(last).skip(1), n));
    } else {
        let m1 = choose|m1: Seq<T>|
            #[trigger] set_at_spec(cs, pairs[0].0, pairs[0].1, m1) && apply_pairs_spec(
                m1,
                pairs.skip(1),
                mid,
            );
        lemma_apply_pairs_snoc(m1, pairs.skip(1), last, mid, n);
        assert(pairs.push(last)[0] == pairs[0]);
        assert(pairs.push(last).skip(1) =~= pairs.skip(1).push(last));
        assert(set_at_spec(cs, pairs.push(last)[0].0, pairs.push(last)[0].1, m1));
        assert(apply_pairs_spec(m1, pairs.push(last).skip(1), n));
    }
}

/// `set_at_spec` respects extensional equality of the starting contents.
proof fn lemma_set_at_congruence<T: DefaultValue>(a: Seq<T>, b: Seq<T>, key: u32, value: T, n: Seq<T>)
    requires
        a =~= b,
        set_at_spec(a, key, value, n),
    ensures
        set_at_spec(b, key, value, n),
{
}

} // verus!
