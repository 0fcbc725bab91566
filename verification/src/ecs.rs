//! The ECS core: entities, per-type component stores, and the world that
//! owns them.
//!
//! A `World<V>` owns one `Store<V>` per component type currently in
//! use.  Component types are named by `u64` tokens; a store is a dense
//! array of optional values whose length always equals the world's entity
//! slot count, so an entity index addresses the same slot in every store.
//! An empty slot (a "tombstone") means "this entity currently lacks this
//! component".

use vstd::prelude::*;

verus! {

/// An opaque dense entity identifier.  Identity only: it carries no data
/// of its own, and destroyed identifiers are recycled.
#[derive(Clone, Copy, PartialEq, Eq, Structural, Debug)]
pub struct Entity(pub usize);

/// What can be attached to an entity: a carrier of one component value
/// together with the token of its component type.  A carrier names its
/// type token itself, so the engine never has to recover a component's
/// type from the value at run time.
pub trait Component<V> {
    /// The component type's token.
    spec fn token_spec(&self) -> u64;

    /// The component value carried.
    spec fn value_spec(self) -> V;

    /// Split the carrier into type token and value.
    fn parts(self) -> (r: (u64, V))
        ensures
            r.0 == self.token_spec(),
            r.1 == self.value_spec(),
    ;
}

/// The plainest carrier: a type token paired with a value.
impl<V> Component<V> for (u64, V) {
    open spec fn token_spec(&self) -> u64 {
        self.0
    }

    open spec fn value_spec(self) -> V {
        self.1
    }

    fn parts(self) -> (r: (u64, V)) {
        self
    }
}

/// One component type's store: a dense array of optional values, indexed
/// by entity index.  `None` is a tombstone.
pub struct Store<V> {
    ty: u64,
    slots: Vec<Option<V>>,
}

/// The store interface the world drives: a store grows by one tombstone
/// whenever an entity slot is minted, clears a slot when a component is
/// detached or its entity destroyed, and reports whether any slot is
/// still occupied (a store where none is gets pruned).
pub trait ComponentVec<V> {
    /// The token of the component type this store holds.
    spec fn ty_spec(&self) -> u64;

    /// The slot array, one entry per entity index.
    spec fn slots_spec(&self) -> Seq<Option<V>>;

    /// Append one tombstone slot.
    fn push_none(&mut self)
        ensures
            final(self).ty_spec() == old(self).ty_spec(),
            final(self).slots_spec() == old(self).slots_spec().push(None),
    ;

    /// Tombstone slot `idx`.
    fn set_none(&mut self, idx: usize)
        requires
            idx < old(self).slots_spec().len(),
        ensures
            final(self).ty_spec() == old(self).ty_spec(),
            final(self).slots_spec() == old(self).slots_spec().update(idx as int, None),
    ;

    /// True iff some slot is occupied.
    fn used_component(&self) -> (r: bool)
        ensures
            r == exists|i: int|
                0 <= i < self.slots_spec().len() && self.slots_spec()[i] is Some,
    ;
}

impl<V> Store<V> {
    /// The token of the component type this store holds.
    pub closed spec fn ty(self) -> u64 {
        self.ty
    }

    /// The slot array, one entry per entity index.
    pub closed spec fn slots(self) -> Seq<Option<V>> {
        self.slots@
    }

    /// True iff some slot is occupied; a store where this fails is unused
    /// and eligible for pruning.
    pub open spec fn is_used(self) -> bool {
        exists|i: int| 0 <= i < self.slots().len() && self.slots()[i] is Some
    }

    /// A store of `len` tombstones for component type `ty`.
    pub fn new_empty(ty: u64, len: usize) -> (s: Self)
        ensures
            s.ty() == ty,
            s.slots() == Seq::new(len as nat, |i: int| None::<V>),
    {
        let mut slots: Vec<Option<V>> = Vec::new();
        let mut i: usize = 0;
        while i < len
            invariant
                i <= len,
                slots@ == Seq::new(i as nat, |j: int| None::<V>),
            decreases len - i,
        {
            slots.push(None);
            proof {
                assert(slots@ =~= Seq::new((i + 1) as nat, |j: int| None::<V>));
            }
            i += 1;
        }
        Store { ty, slots }
    }

    /// The number of slots (the world's entity slot count).
    pub fn len(&self) -> (n: usize)
        ensures
            n == self.slots().len(),
    {
        self.slots.len()
    }

    /// The type token, as an executable value.
    pub fn type_token(&self) -> (t: u64)
        ensures
            t == self.ty(),
    {
        self.ty
    }

    /// Occupy slot `idx` with `value`.
    pub fn set(&mut self, idx: usize, value: V)
        requires
            idx < old(self).slots().len(),
        ensures
            final(self).ty() == old(self).ty(),
            final(self).slots() == old(self).slots().update(idx as int, Some(value)),
    {
        self.slots[idx] = Some(value);
    }

    /// Read slot `idx`.
    pub fn get(&self, idx: usize) -> (r: Option<&V>)
        requires
            idx < self.slots().len(),
        ensures
            match r {
                Some(v) => self.slots()[idx as int] == Some(*v),
                None => self.slots()[idx as int] is None,
            },
    {
        match &self.slots[idx] {
            Some(v) => Some(v),
            None => None,
        }
    }

}

impl<V> ComponentVec<V> for Store<V> {
    open spec fn ty_spec(&self) -> u64 {
        self.ty()
    }

    open spec fn slots_spec(&self) -> Seq<Option<V>> {
        self.slots()
    }

    fn push_none(&mut self) {
        self.slots.push(None);
    }

    fn set_none(&mut self, idx: usize) {
        self.slots[idx] = None;
    }

    fn used_component(&self) -> (r: bool)
        ensures
            r == self.is_used(),
    {
        let n = self.slots.len();
        let mut i: usize = 0;
        while i < n
            invariant
                i <= n,
                n == self.slots().len(),
                forall|j: int| 0 <= j < i ==> self.slots()[j] is None,
            decreases n - i,
        {
            if self.slots[i].is_some() {
                return true;
            }
            i += 1;
        }
        false
    }
}

/// The world: the set of active component stores, the total count of
/// entity slots ever allocated, and the free list of destroyed-but-
/// reusable entity indices.
pub struct World<V> {
    components: Vec<Store<V>>,
    num_entities: usize,
    free_entities: Vec<Entity>,
}

impl<V> World<V> {
    /// The active stores, in their current order.
    pub closed spec fn stores(self) -> Seq<Store<V>> {
        self.components@
    }

    /// The total count of entity slots ever allocated (live or freed).
    pub closed spec fn num_slots(self) -> nat {
        self.num_entities as nat
    }

    /// The free list; its last element is reused first.
    pub closed spec fn free(self) -> Seq<Entity> {
        self.free_entities@
    }

    /// True iff some active store holds component type `t`.
    pub open spec fn has_store(self, t: u64) -> bool {
        exists|i: int| 0 <= i < self.stores().len() && (#[trigger] self.stores()[i]).ty() == t
    }

    /// The position of component type `t`'s store among the active
    /// stores (meaningful only when `has_store(t)`; well defined because
    /// no two active stores share a type).
    pub open spec fn store_index(self, t: u64) -> int {
        choose|i: int| 0 <= i < self.stores().len() && (#[trigger] self.stores()[i]).ty() == t
    }

    /// The slot array of component type `t`'s store.
    pub open spec fn store_slots(self, t: u64) -> Seq<Option<V>> {
        self.stores()[self.store_index(t)].slots()
    }

    /// What entity index `i` holds for component type `t`: the attached
    /// value, or `None` when the type has no store or the slot is a
    /// tombstone.
    pub open spec fn slot_of(self, t: u64, i: int) -> Option<V> {
        if self.has_store(t) {
            self.store_slots(t)[i]
        } else {
            None
        }
    }

    /// True iff `e` sits on the free list.
    pub open spec fn is_free(self, e: Entity) -> bool {
        self.free().contains(e)
    }

    /// True iff `e` denotes a live entity: allocated and not freed.
    pub open spec fn is_live(self, e: Entity) -> bool {
        e.0 < self.num_slots() && !self.is_free(e)
    }

    /// Every active store has exactly `num_slots()` slots.
    pub open spec fn stores_sized(self) -> bool {
        forall|i: int|
            0 <= i < self.stores().len() ==> (#[trigger] self.stores()[i]).slots().len()
                == self.num_slots()
    }

    /// No two active stores represent the same component type.
    pub open spec fn distinct_tys(self) -> bool {
        forall|i: int, j: int|
            0 <= i < self.stores().len() && 0 <= j < self.stores().len() && i != j
                ==> (#[trigger] self.stores()[i]).ty() != (#[trigger] self.stores()[j]).ty()
    }

    /// Every active store has at least one occupied slot (unused stores
    /// are pruned eagerly).
    pub open spec fn stores_used(self) -> bool {
        forall|i: int| 0 <= i < self.stores().len() ==> (#[trigger] self.stores()[i]).is_used()
    }

    /// Every free-list entry is an allocated index, and no index is
    /// listed twice.
    pub open spec fn free_ok(self) -> bool {
        &&& forall|i: int|
            0 <= i < self.free().len() ==> (#[trigger] self.free()[i]).0 < self.num_slots()
        &&& forall|i: int, j: int|
            0 <= i < self.free().len() && 0 <= j < self.free().len() && i != j
                ==> self.free()[i] != self.free()[j]
    }

    /// The world's invariant.
    pub open spec fn wf(self) -> bool {
        &&& self.stores_sized()
        &&& self.distinct_tys()
        &&& self.stores_used()
        &&& self.free_ok()
    }

    /// An empty world: no stores, no entity slots, no free indices.
    pub fn new() -> (w: Self)
        ensures
            w.wf(),
            w.stores() == Seq::<Store<V>>::empty(),
            w.num_slots() == 0,
            w.free() == Seq::<Entity>::empty(),
    {
        World { components: Vec::new(), num_entities: 0, free_entities: Vec::new() }
    }

    /// Where `t`'s store sits among the active stores, if anywhere:
    /// the type-registry lookup, a linear scan for the matching token.
    pub fn get_index(&self, t: u64) -> (r: Option<usize>)
        requires
            self.wf(),
        ensures
            match r {
                Some(i) => self.has_store(t) && i == self.store_index(t),
                None => !self.has_store(t),
            },
    {
        let n = self.components.len();
        let mut i: usize = 0;
        while i < n
            invariant
                i <= n,
                n == self.stores().len(),
                self.wf(),
                forall|j: int| 0 <= j < i ==> (#[trigger] self.stores()[j]).ty() != t,
            decreases n - i,
        {
            if self.components[i].type_token() == t {
                proof {
                    self.lemma_store_index_of(t, i as int);
                }
                return Some(i);
            }
            i += 1;
        }
        None
    }

    /// The number of active stores.
    pub fn store_count(&self) -> (n: usize)
        ensures
            n == self.stores().len(),
    {
        self.components.len()
    }

    /// The total count of entity slots ever allocated.
    pub fn num_entity_slots(&self) -> (n: usize)
        ensures
            n == self.num_slots(),
    {
        self.num_entities
    }

    /// How many destroyed indices are waiting for reuse.
    pub fn free_count(&self) -> (n: usize)
        ensures
            n == self.free().len(),
    {
        self.free_entities.len()
    }

    /// The free-list entry at position `i` (`0` is the oldest).
    pub fn free_entity_at(&self, i: usize) -> (e: Entity)
        requires
            i < self.free().len(),
        ensures
            e == self.free()[i as int],
    {
        self.free_entities[i]
    }

    /// Under the invariant the free list cannot outgrow the slot count:
    /// its entries are distinct indices below `num_slots()`.
    pub proof fn lemma_free_list_bounded(self)
        requires
            self.free_ok(),
        ensures
            self.free().len() <= self.num_slots(),
    {
        let idxs = self.free().map_values(|e: Entity| e.0 as int);
        assert forall|i: int, j: int|
            0 <= i < idxs.len() && 0 <= j < idxs.len() && i != j implies idxs[i] != idxs[j] by {
            assert(self.free()[i] != self.free()[j]);
        }
        assert(idxs.no_duplicates());
        idxs.unique_seq_to_set();
        vstd::set_lib::lemma_int_range(0, self.num_slots() as int);
        assert forall|x: int| idxs.to_set().contains(x) implies vstd::set_lib::set_int_range(
            0,
            self.num_slots() as int,
        ).contains(x) by {
            let i = choose|i: int| 0 <= i < idxs.len() && idxs[i] == x;
            assert(self.free()[i].0 < self.num_slots());
        }
        vstd::set_lib::lemma_len_subset(
            idxs.to_set(),
            vstd::set_lib::set_int_range(0, self.num_slots() as int),
        );
    }

    /// How many entities are currently live.
    pub fn active_entity_count(&self) -> (n: usize)
        requires
            self.wf(),
        ensures
            n == self.num_slots() - self.free().len(),
    {
        proof {
            self.lemma_free_list_bounded();
        }
        self.num_entities - self.free_entities.len()
    }

    /// When index `i` holds `t`'s store, it is the index `store_index`
    /// names (stores' types are pairwise distinct under `wf`).
    pub proof fn lemma_store_index_of(self, t: u64, i: int)
        requires
            self.distinct_tys(),
            0 <= i < self.stores().len(),
            self.stores()[i].ty() == t,
        ensures
            self.has_store(t),
            self.store_index(t) == i,
    {
        assert(self.has_store(t));
        let j = self.store_index(t);
        assert(0 <= j < self.stores().len() && self.stores()[j].ty() == t);
    }

    /// Two worlds whose store lists carry the same component types at the
    /// same positions agree on which types have a store and where.
    pub proof fn lemma_same_tys(self, other: World<V>)
        requires
            self.distinct_tys(),
            other.stores().len() == self.stores().len(),
            forall|i: int|
                0 <= i < self.stores().len() ==> (#[trigger] other.stores()[i]).ty()
                    == (#[trigger] self.stores()[i]).ty(),
        ensures
            forall|t: u64| #[trigger] other.has_store(t) == self.has_store(t),
            forall|t: u64|
                self.has_store(t) ==> #[trigger] other.store_index(t) == self.store_index(t),
    {
        assert forall|t: u64| #[trigger] other.has_store(t) == self.has_store(t) by {
            if self.has_store(t) {
                let i = self.store_index(t);
                assert(other.stores()[i].ty() == t);
            }
            if other.has_store(t) {
                let i = other.store_index(t);
                assert(self.stores()[i].ty() == t);
            }
        }
        assert forall|t: u64| self.has_store(t) implies #[trigger] other.store_index(t)
            == self.store_index(t) by {
            let i = self.store_index(t);
            assert(other.stores()[i].ty() == t);
            let j = other.store_index(t);
            assert(0 <= j < other.stores().len() && other.stores()[j].ty() == t);
            assert(self.stores()[j].ty() == t);
        }
    }

    /// Appending a store for a type that had none leaves every other
    /// type's store untouched.
    pub proof fn lemma_push_store(self, other: World<V>, s: Store<V>)
        requires
            self.distinct_tys(),
            !self.has_store(s.ty()),
            other.stores() == self.stores().push(s),
        ensures
            other.has_store(s.ty()),
            other.store_index(s.ty()) == self.stores().len(),
            other.store_slots(s.ty()) == s.slots(),
            forall|t: u64|
                t != s.ty() ==> #[trigger] other.has_store(t) == self.has_store(t),
            forall|t: u64|
                t != s.ty() && self.has_store(t) ==> #[trigger] other.store_index(t)
                    == self.store_index(t),
            forall|t: u64|
                t != s.ty() && self.has_store(t) ==> #[trigger] other.store_slots(t)
                    == self.store_slots(t),
    {
        let n = self.stores().len() as int;
        assert(other.stores()[n] == s);
        assert(other.has_store(s.ty()));
        let j = other.store_index(s.ty());
        assert(0 <= j < other.stores().len() && other.stores()[j].ty() == s.ty());
        if j < n {
            assert(self.stores()[j].ty() == s.ty());
            assert(self.has_store(s.ty()));
        }
        assert(j == n);
        assert forall|t: u64| t != s.ty() implies #[trigger] other.has_store(t)
            == self.has_store(t) by {
            if self.has_store(t) {
                let i = self.store_index(t);
                assert(other.stores()[i].ty() == t);
            }
            if other.has_store(t) {
                let i = other.store_index(t);
                assert(0 <= i < other.stores().len() && other.stores()[i].ty() == t);
                assert(i != n);
                assert(self.stores()[i].ty() == t);
            }
        }
        assert forall|t: u64| t != s.ty() && self.has_store(t) implies #[trigger] other.store_index(
            t,
        ) == self.store_index(t) && other.store_slots(t) == self.store_slots(t) by {
            let i = self.store_index(t);
            assert(other.stores()[i].ty() == t);
            let j2 = other.store_index(t);
            assert(0 <= j2 < other.stores().len() && other.stores()[j2].ty() == t);
            assert(j2 != n);
            assert(self.stores()[j2].ty() == t);
        }
    }
}

/// True iff every slot of `s` is a tombstone.
pub open spec fn all_none<V>(s: Seq<Option<V>>) -> bool {
    forall|i: int| 0 <= i < s.len() ==> s[i] is None
}

/// Surviving stores keep their relative order: where two component types
/// have stores both before and after an operation, the one that came
/// first still comes first.  The order is observable through
/// `contains`/`get_index`.
pub open spec fn stores_order_kept<V>(w0: World<V>, w1: World<V>) -> bool {
    forall|u1: u64, u2: u64|
        w0.has_store(u1) && w0.has_store(u2) && w1.has_store(u1) && w1.has_store(u2)
            && w0.store_index(u1) < w0.store_index(u2) ==> #[trigger] w1.store_index(u1)
            < #[trigger] w1.store_index(u2)
}

impl<V> World<V> {
    /// Removing the store at position `i` loses exactly that store's
    /// component type; every other type keeps its store and its slots.
    pub proof fn lemma_remove_store(self, other: World<V>, i: int)
        requires
            self.distinct_tys(),
            0 <= i < self.stores().len(),
            other.stores() == self.stores().remove(i),
        ensures
            !other.has_store(self.stores()[i].ty()),
            forall|t: u64|
                t != self.stores()[i].ty() ==> #[trigger] other.has_store(t) == self.has_store(t),
            forall|t: u64|
                t != self.stores()[i].ty() && self.has_store(t) ==> #[trigger] other.store_slots(t)
                    == self.store_slots(t),
            forall|t: u64|
                t != self.stores()[i].ty() && self.has_store(t) ==> #[trigger] other.store_index(t)
                    == (if self.store_index(t) < i {
                    self.store_index(t)
                } else {
                    self.store_index(t) - 1
                }),
            forall|j: int, k: int|
                0 <= j < other.stores().len() && 0 <= k < other.stores().len() && j != k
                    ==> (#[trigger] other.stores()[j]).ty() != (#[trigger] other.stores()[k]).ty(),
            forall|j: int|
                0 <= j < other.stores().len() ==> self.stores().contains(
                    #[trigger] other.stores()[j],
                ),
    {
        let ty = self.stores()[i].ty();
        assert forall|j: int| 0 <= j < other.stores().len() implies self.stores().contains(
            #[trigger] other.stores()[j],
        ) by {
            if j < i {
                assert(other.stores()[j] == self.stores()[j]);
            } else {
                assert(other.stores()[j] == self.stores()[j + 1]);
            }
        }
        if other.has_store(ty) {
            let k = other.store_index(ty);
            if k < i {
                assert(self.stores()[k].ty() == ty);
            } else {
                assert(self.stores()[k + 1].ty() == ty);
            }
        }
        assert forall|t: u64| t != ty implies #[trigger] other.has_store(t) == self.has_store(
            t,
        ) by {
            if self.has_store(t) {
                let k = self.store_index(t);
                assert(k != i);
                if k < i {
                    assert(other.stores()[k].ty() == t);
                } else {
                    assert(other.stores()[k - 1].ty() == t);
                }
            }
            if other.has_store(t) {
                let k = other.store_index(t);
                if k < i {
                    assert(self.stores()[k].ty() == t);
                } else {
                    assert(self.stores()[k + 1].ty() == t);
                }
            }
        }
        assert forall|t: u64| t != ty && self.has_store(t) implies #[trigger] other.store_slots(t)
            == self.store_slots(t) by {
            let k = self.store_index(t);
            assert(other.has_store(t));
            let l = other.store_index(t);
            assert(0 <= l < other.stores().len() && other.stores()[l].ty() == t);
            if l < i {
                assert(other.stores()[l] == self.stores()[l]);
                assert(k == l);
            } else {
                assert(other.stores()[l] == self.stores()[l + 1]);
                assert(k == l + 1);
            }
        }
        assert forall|t: u64| t != ty && self.has_store(t) implies #[trigger] other.store_index(t)
            == (if self.store_index(t) < i {
            self.store_index(t)
        } else {
            self.store_index(t) - 1
        }) by {
            let k = self.store_index(t);
            assert(other.has_store(t));
            let l = other.store_index(t);
            assert(0 <= l < other.stores().len() && other.stores()[l].ty() == t);
            if l < i {
                assert(other.stores()[l] == self.stores()[l]);
                assert(k == l);
            } else {
                assert(other.stores()[l] == self.stores()[l + 1]);
                assert(k == l + 1);
            }
        }
        assert forall|j: int, k: int|
            0 <= j < other.stores().len() && 0 <= k < other.stores().len() && j != k implies (
        #[trigger] other.stores()[j]).ty() != (#[trigger] other.stores()[k]).ty() by {
            let j0 = if j < i { j } else { j + 1 };
            let k0 = if k < i { k } else { k + 1 };
            assert(other.stores()[j] == self.stores()[j0]);
            assert(other.stores()[k] == self.stores()[k0]);
        }
    }
}

/// The full effect of detaching component type `t` from entity `e`: a
/// no-op when `t` has no store; otherwise `e`'s slot in `t`'s store is
/// tombstoned, and the store is pruned exactly when no occupied slot is
/// left.  Every other type's store is untouched.
pub open spec fn detach_post<V>(w0: World<V>, w1: World<V>, e: Entity, t: u64) -> bool {
    &&& w1.num_slots() == w0.num_slots()
    &&& w1.free() == w0.free()
    &&& forall|u: u64| u != t ==> #[trigger] w1.has_store(u) == w0.has_store(u)
    &&& forall|u: u64|
        u != t && w0.has_store(u) ==> #[trigger] w1.store_slots(u) == w0.store_slots(u)
    &&& stores_order_kept(w0, w1)
    &&& !w0.has_store(t) ==> w1 == w0
    &&& w0.has_store(t) ==> {
        let s1 = w0.store_slots(t).update(e.0 as int, None);
        &&& w1.has_store(t) <==> !all_none(s1)
        &&& (w1.has_store(t) ==> w1.store_slots(t) == s1)
        &&& w1.stores().len() == w0.stores().len() - (if all_none(s1) {
            1int
        } else {
            0int
        })
    }
}

/// The full effect of creating an entity: the most recently freed index
/// is reused first (LIFO), and only when the free list is empty is a
/// fresh index minted, growing every store by one tombstone slot.
pub open spec fn create_post<V>(w0: World<V>, w1: World<V>, e: Entity) -> bool {
    &&& w1.is_live(e)
    &&& if w0.free().len() > 0 {
        &&& e == w0.free().last()
        &&& w1.free() == w0.free().drop_last()
        &&& w1.num_slots() == w0.num_slots()
        &&& w1.stores() == w0.stores()
    } else {
        &&& e.0 == w0.num_slots()
        &&& w1.free() == w0.free()
        &&& w1.num_slots() == w0.num_slots() + 1
        &&& w1.stores().len() == w0.stores().len()
        &&& (forall|u: u64| #[trigger] w1.has_store(u) == w0.has_store(u))
        &&& (forall|u: u64|
            w0.has_store(u) ==> #[trigger] w1.store_slots(u) == w0.store_slots(u).push(None))
    }
}

/// The full effect of destroying entity `e`: its index goes onto the free
/// list, its slot is tombstoned in every store, and stores left with no
/// occupied slot are pruned; the stores that survive keep their relative
/// order.
pub open spec fn destroy_post<V>(w0: World<V>, w1: World<V>, e: Entity) -> bool {
    &&& w1.num_slots() == w0.num_slots()
    &&& w1.free() == w0.free().push(e)
    &&& stores_order_kept(w0, w1)
    &&& forall|u: u64| !w0.has_store(u) ==> !(#[trigger] w1.has_store(u))
    &&& forall|u: u64|
        #[trigger] w0.has_store(u) ==> {
            let s1 = w0.store_slots(u).update(e.0 as int, None);
            &&& (w1.has_store(u) <==> !all_none(s1))
            &&& (w1.has_store(u) ==> w1.store_slots(u) == s1)
        }
}

/// What `attach` leaves behind in the store of the attached type: the old
/// slot array (or a fresh all-tombstone one when the type had no store),
/// with the entity's slot overwritten by the new value.
pub open spec fn attach_slots<V>(w0: World<V>, t: u64, e: Entity, v: V) -> Seq<Option<V>> {
    (if w0.has_store(t) {
        w0.store_slots(t)
    } else {
        Seq::new(w0.num_slots(), |i: int| None::<V>)
    }).update(e.0 as int, Some(v))
}

/// The full effect of attaching `v` as component type `t` of entity `e`:
/// the world changes in `t`'s store alone, at `e`'s slot alone, and a
/// store is created exactly when `t` had none — landing after every
/// existing store, none of which moves.
pub open spec fn attach_post<V>(w0: World<V>, w1: World<V>, e: Entity, t: u64, v: V) -> bool {
    &&& w1.num_slots() == w0.num_slots()
    &&& w1.free() == w0.free()
    &&& w1.has_store(t)
    &&& forall|u: u64| u != t ==> #[trigger] w1.has_store(u) == w0.has_store(u)
    &&& forall|u: u64|
        u != t && w0.has_store(u) ==> #[trigger] w1.store_slots(u) == w0.store_slots(u)
    &&& forall|u: u64|
        u != t && w0.has_store(u) ==> #[trigger] w1.store_index(u) == w0.store_index(u)
    &&& w1.store_index(t) == (if w0.has_store(t) {
        w0.store_index(t)
    } else {
        w0.stores().len() as int
    })
    &&& w1.store_slots(t) == attach_slots(w0, t, e, v)
    &&& w1.stores().len() == w0.stores().len() + (if w0.has_store(t) {
        0int
    } else {
        1int
    })
}

impl<V> World<V> {
    /// Attach `value` as component type `ty` of `entity`, creating the
    /// store (backfilled with tombstones) when the type has none yet.
    /// Attaching a second value of the same type to the same entity
    /// replaces the first.
    pub fn attach(&mut self, entity: Entity, ty: u64, value: V)
        requires
            old(self).wf(),
            entity.0 < old(self).num_slots(),
        ensures
            final(self).wf(),
            attach_post(*old(self), *final(self), entity, ty, value),
    {
        let ghost w0 = *self;
        match self.get_index(ty) {
            Some(i) => {
                let store = &mut self.components[i];
                store.set(entity.0, value);
                proof {
                    assert(self.stores() =~= w0.stores().update(
                        i as int,
                        self.stores()[i as int],
                    ));
                    w0.lemma_same_tys(*self);
                    assert forall|u: u64|
                        u != ty && w0.has_store(u) implies #[trigger] self.store_slots(u)
                        == w0.store_slots(u) by {
                        assert(w0.store_index(u) != i as int);
                    }
                    assert(self.stores()[i as int].slots()[entity.0 as int] is Some);
                    assert(self.stores()[i as int].is_used());
                }
            },
            None => {
                let mut store = Store::new_empty(ty, self.num_entities);
                store.set(entity.0, value);
                self.components.push(store);
                proof {
                    w0.lemma_push_store(*self, self.stores().last());
                    assert(self.store_slots(ty) =~= attach_slots(w0, ty, entity, value));
                    assert(self.stores().last().slots()[entity.0 as int] is Some);
                    assert(self.stores().last().is_used());
                    assert forall|i: int|
                        0 <= i < self.stores().len() implies (#[trigger] self.stores()[i])
                        .is_used() by {
                        if i < w0.stores().len() {
                            assert(self.stores()[i] == w0.stores()[i]);
                        }
                    }
                }
            },
        }
        proof {
            assert(self.free() == w0.free());
            assert forall|k: int| 0 <= k < self.free().len() implies (#[trigger] self.free()[k]).0
                < self.num_slots() by {
                assert(w0.free()[k].0 < w0.num_slots());
            }
            assert forall|k: int, l: int|
                0 <= k < self.free().len() && 0 <= l < self.free().len() && k != l implies self
                .free()[k] != self.free()[l] by {
                assert(w0.free()[k] != w0.free()[l]);
            }
        }
    }

    /// Detach component type `ty` from `entity`: tombstone its slot, and
    /// prune the store when that was its last occupied slot.  A no-op
    /// (not an error) when the type has no store or the slot was already
    /// empty.
    pub fn detach(&mut self, entity: Entity, ty: u64)
        requires
            old(self).wf(),
            entity.0 < old(self).num_slots(),
        ensures
            final(self).wf(),
            detach_post(*old(self), *final(self), entity, ty),
    {
        let ghost w0 = *self;
        match self.get_index(ty) {
            None => {},
            Some(i) => {
                let store = &mut self.components[i];
                store.set_none(entity.0);
                let ghost w_mid = *self;
                proof {
                    assert(w_mid.stores() =~= w0.stores().update(
                        i as int,
                        w_mid.stores()[i as int],
                    ));
                    w0.lemma_same_tys(w_mid);
                    assert forall|u: u64|
                        u != ty && w0.has_store(u) implies #[trigger] w_mid.store_slots(u)
                        == w0.store_slots(u) by {
                        assert(w0.store_index(u) != i as int);
                    }
                    assert(w_mid.store_slots(ty) == w0.store_slots(ty).update(
                        entity.0 as int,
                        None,
                    ));
                }
                if !self.components[i].used_component() {
                    let _ = self.components.remove(i);
                    proof {
                        w_mid.lemma_remove_store(*self, i as int);
                        assert(!w_mid.stores()[i as int].is_used());
                        assert(all_none(w_mid.stores()[i as int].slots()));
                        assert forall|j: int|
                            0 <= j < self.stores().len() implies (#[trigger] self.stores()[j])
                            .slots().len() == self.num_slots() && self.stores()[j].is_used() by {
                            let j0: int = if j < i as int {
                                j
                            } else {
                                j + 1
                            };
                            assert(self.stores()[j] == w_mid.stores()[j0]);
                            assert(w_mid.stores()[j0] == w0.stores()[j0]
                                || w_mid.stores()[j0].slots() == w0.stores()[j0].slots().update(
                                entity.0 as int,
                                None,
                            ));
                        }
                    }
                } else {
                    proof {
                        assert(w_mid.stores()[i as int].is_used());
                        assert(!all_none(w_mid.store_slots(ty)));
                        assert forall|j: int|
                            0 <= j < self.stores().len() implies (#[trigger] self.stores()[j])
                            .slots().len() == self.num_slots() && self.stores()[j].is_used() by {
                            if j != i as int {
                                assert(self.stores()[j] == w0.stores()[j]);
                            }
                        }
                    }
                }
            },
        }
        proof {
            assert(self.free() == w0.free());
            assert forall|k: int| 0 <= k < self.free().len() implies (#[trigger] self.free()[k]).0
                < self.num_slots() by {
                assert(w0.free()[k].0 < w0.num_slots());
            }
            assert forall|k: int, l: int|
                0 <= k < self.free().len() && 0 <= l < self.free().len() && k != l implies self
                .free()[k] != self.free()[l] by {
                assert(w0.free()[k] != w0.free()[l]);
            }
        }
    }
}

/// The subsequence of `s` made of its used stores, in order: what a
/// pruning pass leaves behind.
pub open spec fn used_stores<V>(s: Seq<Store<V>>) -> Seq<Store<V>>
    decreases s.len(),
{
    if s.len() == 0 {
        Seq::empty()
    } else {
        let rest = used_stores(s.drop_last());
        if s.last().is_used() {
            rest.push(s.last())
        } else {
            rest
        }
    }
}

/// How a pruning pass relates to the store list it ran on: it keeps
/// exactly the used stores, keeps them intact, and keeps their component
/// types pairwise distinct.
pub proof fn lemma_used_stores<V>(s: Seq<Store<V>>)
    requires
        forall|i: int, j: int|
            0 <= i < s.len() && 0 <= j < s.len() && i != j ==> (#[trigger] s[i]).ty() != (
            #[trigger] s[j]).ty(),
    ensures
        used_stores(s).len() <= s.len(),
        forall|j: int|
            0 <= j < used_stores(s).len() ==> s.contains(#[trigger] used_stores(s)[j]),
        forall|j: int| 0 <= j < used_stores(s).len() ==> (#[trigger] used_stores(s)[j]).is_used(),
        forall|k: int|
            0 <= k < s.len() && (#[trigger] s[k]).is_used() ==> used_stores(s).contains(s[k]),
        forall|j: int, k: int|
            0 <= j < used_stores(s).len() && 0 <= k < used_stores(s).len() && j != k ==> (
            #[trigger] used_stores(s)[j]).ty() != (#[trigger] used_stores(s)[k]).ty(),
        forall|j1: int, j2: int|
            0 <= j1 < j2 < used_stores(s).len() ==> exists|k1: int, k2: int|
                0 <= k1 < k2 < s.len() && s[k1] == (#[trigger] used_stores(s)[j1]) && s[k2] == (
                #[trigger] used_stores(s)[j2]),
    decreases s.len(),
{
    if s.len() > 0 {
        let head = s.drop_last();
        lemma_used_stores(head);
        let f = used_stores(s);
        let fh = used_stores(head);
        assert forall|j: int| 0 <= j < f.len() implies s.contains(#[trigger] f[j]) by {
            if j < fh.len() {
                assert(head.contains(fh[j]));
                let k = choose|k: int| 0 <= k < head.len() && head[k] == fh[j];
                assert(s[k] == f[j]);
            } else {
                assert(f[j] == s.last());
                assert(s[s.len() - 1] == s.last());
            }
        }
        assert forall|k: int| 0 <= k < s.len() && (#[trigger] s[k]).is_used() implies f.contains(
            s[k],
        ) by {
            if k < s.len() - 1 {
                assert(head[k] == s[k]);
                assert(fh.contains(s[k]));
                let j = choose|j: int| 0 <= j < fh.len() && fh[j] == s[k];
                if s.last().is_used() {
                    assert(f[j] == s[k]);
                } else {
                    assert(f[j] == s[k]);
                }
            } else {
                assert(s[k] == s.last());
                assert(s.last().is_used());
                assert(f[f.len() - 1] == s[k]);
            }
        }
        assert forall|j1: int, j2: int| 0 <= j1 < j2 < f.len() implies exists|k1: int, k2: int|
            0 <= k1 < k2 < s.len() && s[k1] == (#[trigger] f[j1]) && s[k2] == (
        #[trigger] f[j2]) by {
            if j2 < fh.len() {
                assert(fh[j1] == f[j1] && fh[j2] == f[j2]);
                let (k1, k2) = choose|k1: int, k2: int|
                    0 <= k1 < k2 < head.len() && head[k1] == fh[j1] && head[k2] == fh[j2];
                assert(s[k1] == f[j1] && s[k2] == f[j2]);
                assert(0 <= k1 < k2 < s.len());
            } else {
                // the second store is the freshly kept last element
                assert(f[j2] == s.last());
                assert(fh[j1] == f[j1]);
                assert(head.contains(fh[j1]));
                let k1 = choose|k1: int| 0 <= k1 < head.len() && head[k1] == fh[j1];
                assert(s[k1] == f[j1]);
                assert(s[s.len() - 1] == f[j2]);
                assert(0 <= k1 < s.len() - 1);
            }
        }
        assert forall|j: int, k: int|
            0 <= j < f.len() && 0 <= k < f.len() && j != k implies (#[trigger] f[j]).ty() != (
        #[trigger] f[k]).ty() by {
            let sj = choose|x: int| 0 <= x < s.len() && s[x] == f[j];
            let sk = choose|x: int| 0 <= x < s.len() && s[x] == f[k];
            assert(s.contains(f[j]) && s.contains(f[k]));
            if f[j] == f[k] {
                // two positions of the pruned list holding the same store
                // would both come from the end or both from the head
                if j < fh.len() && k < fh.len() {
                    assert(fh[j].ty() != fh[k].ty());
                } else {
                    // one of them is the last store, the other sits in the
                    // pruned head, whose members all occur in `head`
                    let jh: int = if j < fh.len() {
                        j
                    } else {
                        k
                    };
                    assert(head.contains(fh[jh]));
                    let x = choose|x: int| 0 <= x < head.len() && head[x] == fh[jh];
                    assert(s[x] == s.last());
                    assert(s[x].ty() == s[s.len() - 1].ty());
                    assert(false);
                }
            } else {
                if s[sj] == s[sk] {
                    assert(f[j] == f[k]);
                } else {
                    assert(sj != sk);
                    assert(s[sj].ty() != s[sk].ty());
                }
            }
        }
    }
}

impl Entity {
    /// Create an entity in `world`: reuse the most recently freed index
    /// when one exists (no store growth), otherwise mint the next
    /// sequential index and append one tombstone slot to every store.
    /// Creation is total but for the machine limit, and the limit only
    /// matters when a fresh index must be minted.
    pub fn new<V>(world: &mut World<V>) -> (e: Entity)
        requires
            old(world).wf(),
            old(world).free().len() > 0 || old(world).num_slots() < usize::MAX,
        ensures
            final(world).wf(),
            create_post(*old(world), *final(world), e),
    {
        let ghost w0 = *world;
        if world.free_entities.len() > 0 {
            let e = world.free_entities.pop().unwrap();
            proof {
                assert(e == w0.free().last());
                assert(world.free() == w0.free().drop_last());
                if world.free().contains(e) {
                    let k = choose|k: int|
                        0 <= k < world.free().len() && world.free()[k] == e;
                    assert(w0.free()[k] == e);
                    assert(w0.free()[w0.free().len() - 1] == e);
                }
                assert(world.is_live(e));
                assert(world.stores() == w0.stores());
                assert(world.num_slots() == w0.num_slots());
                assert(world.stores_sized());
                assert(world.distinct_tys());
                assert(world.stores_used());
            }
            e
        } else {
            let e = Entity(world.num_entities);
            world.num_entities = world.num_entities + 1;
            let n = world.components.len();
            let mut i: usize = 0;
            while i < n
                invariant
                    i <= n,
                    n == world.stores().len(),
                    w0.wf(),
                    world.num_slots() == w0.num_slots() + 1,
                    world.free() == w0.free(),
                    world.stores().len() == w0.stores().len(),
                    forall|j: int|
                        0 <= j < i ==> (#[trigger] world.stores()[j]).ty() == w0.stores()[j].ty()
                            && world.stores()[j].slots() == w0.stores()[j].slots().push(None),
                    forall|j: int| i <= j < n ==> world.stores()[j] == w0.stores()[j],
                decreases n - i,
            {
                let store = &mut world.components[i];
                store.push_none();
                i += 1;
            }
            proof {
                w0.lemma_same_tys(*world);
                assert forall|u: u64| w0.has_store(u) implies #[trigger] world.store_slots(u)
                    == w0.store_slots(u).push(None) by {
                    assert(world.store_index(u) == w0.store_index(u));
                }
                assert forall|j: int| 0 <= j < world.stores().len() implies (
                #[trigger] world.stores()[j]).is_used() by {
                    let s0 = w0.stores()[j];
                    assert(s0.is_used());
                    let k = choose|k: int| 0 <= k < s0.slots().len() && s0.slots()[k] is Some;
                    assert(world.stores()[j].slots()[k] is Some);
                }
                assert forall|k: int|
                    0 <= k < world.free().len() implies (#[trigger] world.free()[k]).0
                    < world.num_slots() by {
                    assert(w0.free()[k].0 < w0.num_slots());
                }
                if world.free().contains(e) {
                    let k = choose|k: int|
                        0 <= k < world.free().len() && world.free()[k] == e;
                    assert(w0.free()[k].0 < w0.num_slots());
                }
                assert(world.is_live(e));
                assert forall|j: int| 0 <= j < world.stores().len() implies (
                #[trigger] world.stores()[j]).slots().len() == world.num_slots() by {
                    assert(world.stores()[j].slots() == w0.stores()[j].slots().push(None));
                    assert(w0.stores()[j].slots().len() == w0.num_slots());
                }
                assert forall|j: int, k: int|
                    0 <= j < world.stores().len() && 0 <= k < world.stores().len() && j != k
                    implies (#[trigger] world.stores()[j]).ty() != (
                #[trigger] world.stores()[k]).ty() by {
                    assert(world.stores()[j].ty() == w0.stores()[j].ty());
                    assert(world.stores()[k].ty() == w0.stores()[k].ty());
                }
            }
            e
        }
    }
}

impl<V> World<V> {
    /// Destroy `entity`: push its index onto the free list, tombstone its
    /// slot in every store, and prune every store that becomes fully
    /// tombstoned.
    pub fn remove_entity(&mut self, entity: Entity)
        requires
            old(self).wf(),
            old(self).is_live(entity),
        ensures
            final(self).wf(),
            destroy_post(*old(self), *final(self), entity),
    {
        let ghost w0 = *self;
        self.free_entities.push(entity);
        // Tombstone the entity's slot in every store.
        let n = self.components.len();
        let mut i: usize = 0;
        while i < n
            invariant
                i <= n,
                n == self.stores().len(),
                w0.wf(),
                entity.0 < w0.num_slots(),
                self.num_slots() == w0.num_slots(),
                self.stores().len() == w0.stores().len(),
                forall|j: int|
                    0 <= j < i ==> (#[trigger] self.stores()[j]).ty() == w0.stores()[j].ty()
                        && self.stores()[j].slots() == w0.stores()[j].slots().update(
                        entity.0 as int,
                        None,
                    ),
                forall|j: int| i <= j < n ==> self.stores()[j] == w0.stores()[j],
                self.free() == w0.free().push(entity),
            decreases n - i,
        {
            proof {
                assert(w0.stores()[i as int].slots().len() == w0.num_slots());
            }
            let store = &mut self.components[i];
            store.set_none(entity.0);
            i += 1;
        }
        let ghost wt = *self;
        proof {
            w0.lemma_same_tys(wt);
            assert forall|u: u64| w0.has_store(u) implies #[trigger] wt.store_slots(u)
                == w0.store_slots(u).update(entity.0 as int, None) by {
                assert(wt.store_index(u) == w0.store_index(u));
            }
            lemma_used_stores(wt.stores());
        }
        // Prune every store whose last occupied slot was just cleared.
        let mut i: usize = 0;
        let ghost mut p: int = 0;
        while i < self.components.len()
            invariant
                wt.distinct_tys(),
                0 <= p <= wt.stores().len(),
                i == used_stores(wt.stores().take(p)).len(),
                self.stores() == used_stores(wt.stores().take(p)) + wt.stores().skip(p),
                self.num_slots() == wt.num_slots(),
                self.free() == wt.free(),
            decreases wt.stores().len() - p,
        {
            proof {
                assert(self.stores().len() > i);
                assert(p < wt.stores().len());
                assert(self.stores()[i as int] == wt.stores()[p]);
                assert(wt.stores().take(p + 1).drop_last() =~= wt.stores().take(p));
                assert(wt.stores().take(p + 1).last() == wt.stores()[p]);
            }
            if self.components[i].used_component() {
                proof {
                    assert(used_stores(wt.stores().take(p + 1)) == used_stores(
                        wt.stores().take(p),
                    ).push(wt.stores()[p]));
                    assert(self.stores() =~= used_stores(wt.stores().take(p + 1))
                        + wt.stores().skip(p + 1));
                    p = p + 1;
                }
                i += 1;
            } else {
                let _ = self.components.remove(i);
                proof {
                    assert(used_stores(wt.stores().take(p + 1)) == used_stores(
                        wt.stores().take(p),
                    ));
                    assert(self.stores() =~= used_stores(wt.stores().take(p + 1))
                        + wt.stores().skip(p + 1));
                    p = p + 1;
                }
            }
        }
        proof {
            assert(wt.stores().take(wt.stores().len() as int) =~= wt.stores());
            assert(wt.stores().skip(p) =~= Seq::<Store<V>>::empty());
            assert(self.stores() =~= used_stores(wt.stores()));
            self.lemma_after_prune(w0, wt, entity);
        }
    }

    /// Ties the pruned world back to the one the destruction started
    /// from: the invariant holds again and `destroy_post` is met.
    proof fn lemma_after_prune(self, w0: World<V>, wt: World<V>, entity: Entity)
        requires
            w0.wf(),
            w0.is_live(entity),
            entity.0 < w0.num_slots(),
            wt.distinct_tys(),
            wt.num_slots() == w0.num_slots(),
            wt.free() == w0.free().push(entity),
            wt.stores().len() == w0.stores().len(),
            forall|i: int|
                0 <= i < wt.stores().len() ==> (#[trigger] wt.stores()[i]).slots().len()
                    == wt.num_slots(),
            forall|u: u64| #[trigger] wt.has_store(u) == w0.has_store(u),
            forall|u: u64|
                w0.has_store(u) ==> #[trigger] wt.store_slots(u) == w0.store_slots(u).update(
                    entity.0 as int,
                    None,
                ),
            forall|u: u64|
                w0.has_store(u) ==> #[trigger] wt.store_index(u) == w0.store_index(u),
            self.stores() == used_stores(wt.stores()),
            self.num_slots() == wt.num_slots(),
            self.free() == wt.free(),
        ensures
            self.wf(),
            destroy_post(w0, *&self, entity),
    {
        lemma_used_stores(wt.stores());
        let f = self.stores();
        // well-formedness of the pruned world
        assert forall|j: int| 0 <= j < f.len() implies (#[trigger] f[j]).slots().len()
            == self.num_slots() && f[j].is_used() by {
            assert(wt.stores().contains(f[j]));
        }
        assert forall|k: int| 0 <= k < self.free().len() implies (#[trigger] self.free()[k]).0
            < self.num_slots() by {
            if k < w0.free().len() {
                assert(w0.free()[k].0 < w0.num_slots());
            } else {
                assert(self.free()[k] == entity);
            }
        }
        assert forall|k: int, l: int|
            0 <= k < self.free().len() && 0 <= l < self.free().len() && k != l implies self.free()[
            k] != self.free()[l] by {
            let m = w0.free().len() as int;
            if k < m && l < m {
                assert(w0.free()[k] != w0.free()[l]);
            } else if k < m {
                assert(self.free()[l] == entity);
                assert(!w0.is_free(entity));
                if w0.free()[k] == entity {
                    assert(w0.free().contains(entity));
                }
            } else {
                assert(self.free()[k] == entity);
                assert(!w0.is_free(entity));
                if w0.free()[l] == entity {
                    assert(w0.free().contains(entity));
                }
            }
        }
        // destroy_post: surviving stores keep their relative order
        assert forall|u1: u64, u2: u64|
            w0.has_store(u1) && w0.has_store(u2) && self.has_store(u1) && self.has_store(u2)
                && w0.store_index(u1) < w0.store_index(u2) implies #[trigger] self.store_index(u1)
            < #[trigger] self.store_index(u2) by {
            let j1 = self.store_index(u1);
            let j2 = self.store_index(u2);
            assert(0 <= j1 < f.len() && f[j1].ty() == u1);
            assert(0 <= j2 < f.len() && f[j2].ty() == u2);
            if j1 == j2 {
                assert(u1 == u2);
                assert(false);
            }
            if j1 > j2 {
                // the order-preservation clause would then put `u1`'s
                // store before `u2`'s in the tombstoned list as well
                assert(exists|k1: int, k2: int|
                    0 <= k1 < k2 < wt.stores().len() && wt.stores()[k1] == used_stores(
                        wt.stores(),
                    )[j2] && wt.stores()[k2] == used_stores(wt.stores())[j1]);
                let (k1, k2) = choose|k1: int, k2: int|
                    0 <= k1 < k2 < wt.stores().len() && wt.stores()[k1] == used_stores(
                        wt.stores(),
                    )[j2] && wt.stores()[k2] == used_stores(wt.stores())[j1];
                assert(wt.stores()[k1].ty() == u2);
                assert(wt.stores()[k2].ty() == u1);
                wt.lemma_store_index_of(u2, k1);
                wt.lemma_store_index_of(u1, k2);
                assert(w0.store_index(u2) < w0.store_index(u1));
                assert(false);
            }
        }
        assert forall|u: u64| !w0.has_store(u) implies !(#[trigger] self.has_store(u)) by {
            if self.has_store(u) {
                let j = self.store_index(u);
                assert(wt.stores().contains(f[j]));
                let k = choose|k: int| 0 <= k < wt.stores().len() && wt.stores()[k] == f[j];
                assert(wt.stores()[k].ty() == u);
                assert(wt.has_store(u));
            }
        }
        assert forall|u: u64| #[trigger] w0.has_store(u) implies {
            let s1 = w0.store_slots(u).update(entity.0 as int, None);
            &&& (self.has_store(u) <==> !all_none(s1))
            &&& (self.has_store(u) ==> self.store_slots(u) == s1)
        } by {
            let s1 = w0.store_slots(u).update(entity.0 as int, None);
            assert(wt.has_store(u));
            assert(wt.store_slots(u) == s1);
            let k = wt.store_index(u);
            assert(0 <= k < wt.stores().len() && wt.stores()[k].ty() == u);
            assert(wt.stores()[k].slots() == s1);
            if !all_none(s1) {
                let x = choose|x: int| 0 <= x < s1.len() && s1[x] is Some;
                assert(wt.stores()[k].is_used());
                assert(f.contains(wt.stores()[k]));
                let j = choose|j: int| 0 <= j < f.len() && f[j] == wt.stores()[k];
                assert(f[j].ty() == u);
                assert(self.has_store(u));
                // the surviving store with type `u` is that very store
                let j2 = self.store_index(u);
                assert(0 <= j2 < f.len() && f[j2].ty() == u);
                assert(wt.stores().contains(f[j2]));
                let k2 = choose|k2: int| 0 <= k2 < wt.stores().len() && wt.stores()[k2] == f[j2];
                assert(wt.stores()[k2].ty() == u);
                assert(k2 == k);
                assert(self.store_slots(u) == s1);
            } else {
                if self.has_store(u) {
                    let j2 = self.store_index(u);
                    assert(f[j2].is_used());
                    assert(wt.stores().contains(f[j2]));
                    let k2 = choose|k2: int|
                        0 <= k2 < wt.stores().len() && wt.stores()[k2] == f[j2];
                    assert(wt.stores()[k2].ty() == u);
                    assert(k2 == k);
                    assert(wt.stores()[k].is_used());
                    let x = choose|x: int|
                        0 <= x < wt.stores()[k].slots().len() && wt.stores()[k].slots()[x] is Some;
                    assert(s1[x] is Some);
                }
            }
        }
    }
}


/// The read-only frame shared by operations that touch one store at one
/// slot: everything outside component type `t` is unchanged.
pub open spec fn same_but_store<V>(w0: World<V>, w1: World<V>, t: u64) -> bool {
    &&& w1.num_slots() == w0.num_slots()
    &&& w1.free() == w0.free()
    &&& forall|u: u64| #[trigger] w1.has_store(u) == w0.has_store(u)
    &&& forall|u: u64|
        u != t && w0.has_store(u) ==> #[trigger] w1.store_slots(u) == w0.store_slots(u)
}

impl<V> Store<V> {
    /// Mutably borrow the value in slot `idx`, if one is there.
    pub fn get_mut(&mut self, idx: usize) -> (r: Option<&mut V>)
        requires
            idx < old(self).slots().len(),
        ensures
            final(self).ty() == old(self).ty(),
            final(self).slots().len() == old(self).slots().len(),
            old(self).slots()[idx as int] is None ==> r is None && final(self).slots() == old(
                self,
            ).slots(),
            old(self).slots()[idx as int] is Some ==> r is Some && old(self).slots()[idx as int]
                == Some(*r.unwrap()) && final(self).slots() == old(self).slots().update(
                idx as int,
                Some(*final(r.unwrap())),
            ),
    {
        let slot = &mut self.slots[idx];
        let r = slot.as_mut();
        r
    }
}

impl<V> World<V> {
    /// The store for component type `ty`, if one is active.
    pub fn get(&self, ty: u64) -> (r: Option<&Store<V>>)
        requires
            self.wf(),
        ensures
            match r {
                Some(s) => self.has_store(ty) && *s == self.stores()[self.store_index(ty)],
                None => !self.has_store(ty),
            },
    {
        match self.get_index(ty) {
            Some(i) => Some(&self.components[i]),
            None => None,
        }
    }

    /// Whether component type `ty` has an active store, and where it
    /// sits: `get_index` under the name some call sites prefer.
    pub fn contains(&self, ty: u64) -> (r: Option<usize>)
        requires
            self.wf(),
        ensures
            match r {
                Some(i) => self.has_store(ty) && i == self.store_index(ty),
                None => !self.has_store(ty),
            },
    {
        self.get_index(ty)
    }
}

impl Entity {
    /// Attach `component` to this entity (chainable).  Attaching a second
    /// value of the same type replaces the first.
    pub fn add<V, C: Component<V>>(self, component: C, world: &mut World<V>) -> (r: Self)
        requires
            old(world).wf(),
            self.0 < old(world).num_slots(),
        ensures
            r == self,
            final(world).wf(),
            attach_post(
                *old(world),
                *final(world),
                self,
                component.token_spec(),
                component.value_spec(),
            ),
    {
        let (ty, value) = component.parts();
        world.attach(self, ty, value);
        self
    }

    /// Detach component type `ty` from this entity (chainable); a no-op
    /// when the entity has no such component.
    pub fn remove<V>(self, ty: u64, world: &mut World<V>) -> (r: Self)
        requires
            old(world).wf(),
            self.0 < old(world).num_slots(),
        ensures
            r == self,
            final(world).wf(),
            detach_post(*old(world), *final(world), self, ty),
    {
        world.detach(self, ty);
        self
    }

    /// Attach `component` without taking the entity by value.
    pub fn set<V, C: Component<V>>(&self, world: &mut World<V>, component: C)
        requires
            old(world).wf(),
            self.0 < old(world).num_slots(),
        ensures
            final(world).wf(),
            attach_post(
                *old(world),
                *final(world),
                *self,
                component.token_spec(),
                component.value_spec(),
            ),
    {
        let (ty, value) = component.parts();
        world.attach(*self, ty, value);
    }

    /// This entity's component of type `ty`, if it has one.
    pub fn get<'a, V>(&self, ty: u64, world: &'a World<V>) -> (r: Option<&'a V>)
        requires
            world.wf(),
            self.0 < world.num_slots(),
        ensures
            match r {
                Some(v) => world.slot_of(ty, self.0 as int) == Some(*v),
                None => world.slot_of(ty, self.0 as int) is None,
            },
    {
        match world.get(ty) {
            Some(store) => store.get(self.0),
            None => None,
        }
    }

    /// Mutably borrow this entity's component of type `ty`, if it has
    /// one.  When it does, the world afterwards differs from the world
    /// before in that slot alone, which holds whatever the caller leaves
    /// in the returned reference.
    pub fn get_mut<'a, V>(&self, ty: u64, world: &'a mut World<V>) -> (r: Option<&'a mut V>)
        requires
            old(world).wf(),
            self.0 < old(world).num_slots(),
        ensures
            old(world).slot_of(ty, self.0 as int) is None ==> r is None && *final(world) == *old(
                world,
            ),
            old(world).slot_of(ty, self.0 as int) is Some ==> r is Some && {
                let i = old(world).store_index(ty);
                &&& old(world).slot_of(ty, self.0 as int) == Some(*r.unwrap())
                &&& final(world).num_slots() == old(world).num_slots()
                &&& final(world).free() == old(world).free()
                &&& final(world).stores() == old(world).stores().update(
                    i,
                    final(world).stores()[i],
                )
                &&& final(world).stores()[i].ty() == ty
                &&& final(world).stores()[i].slots() == old(world).store_slots(ty).update(
                    self.0 as int,
                    Some(*final(r.unwrap())),
                )
            },
    {
        let occupied = match world.get(ty) {
            Some(store) => store.get(self.0).is_some(),
            None => false,
        };
        if !occupied {
            return None;
        }
        let i = world.get_index(ty).unwrap();
        let store = &mut world.components[i];
        store.get_mut(self.0)
    }
}


/// The values of the occupied slots of `s`, in ascending index order:
/// what a single-type query yields.
pub open spec fn occupied_values<V>(s: Seq<Option<V>>) -> Seq<V>
    decreases s.len(),
{
    if s.len() == 0 {
        Seq::empty()
    } else {
        let rest = occupied_values(s.drop_last());
        match s.last() {
            Some(v) => rest.push(v),
            None => rest,
        }
    }
}

/// The occupied slots of `s` paired with their entity, in ascending
/// index order: what a single-type query with entities yields.
pub open spec fn occupied_entries<V>(s: Seq<Option<V>>) -> Seq<(Entity, V)>
    decreases s.len(),
{
    if s.len() == 0 {
        Seq::empty()
    } else {
        let rest = occupied_entries(s.drop_last());
        match s.last() {
            Some(v) => rest.push((Entity((s.len() - 1) as usize), v)),
            None => rest,
        }
    }
}

/// The inner join of two slot arrays: the pairs at indices where both
/// are occupied, in ascending index order.  An entity missing either
/// component is excluded.
pub open spec fn joined<V>(a: Seq<Option<V>>, b: Seq<Option<V>>) -> Seq<(V, V)>
    recommends
        a.len() == b.len(),
    decreases a.len(),
{
    if a.len() == 0 || b.len() == 0 {
        Seq::empty()
    } else {
        let rest = joined(a.drop_last(), b.drop_last());
        match (a.last(), b.last()) {
            (Some(x), Some(y)) => rest.push((x, y)),
            _ => rest,
        }
    }
}

/// A sequence of references, read as the sequence of their targets.
pub open spec fn deref_seq<V>(s: Seq<&V>) -> Seq<V> {
    s.map_values(|p: &V| *p)
}

/// A sequence of reference pairs, read as the sequence of target pairs.
pub open spec fn deref_pair_seq<V>(s: Seq<(&V, &V)>) -> Seq<(V, V)> {
    s.map_values(|p: (&V, &V)| (*p.0, *p.1))
}

/// A sequence of entity/reference pairs, read with targets.
pub open spec fn deref_entry_seq<V>(s: Seq<(Entity, &V)>) -> Seq<(Entity, V)> {
    s.map_values(|p: (Entity, &V)| (p.0, *p.1))
}

impl<V> World<V> {
    /// All values of component type `ty`, in ascending entity-index
    /// order, skipping tombstones.  Empty when the type has no store.
    pub fn query(&self, ty: u64) -> (r: Vec<&V>)
        requires
            self.wf(),
        ensures
            deref_seq(r@) == if self.has_store(ty) {
                occupied_values(self.store_slots(ty))
            } else {
                Seq::<V>::empty()
            },
    {
        let mut r: Vec<&V> = Vec::new();
        match self.get_index(ty) {
            None => {
                proof {
                    assert(deref_seq(r@) =~= Seq::<V>::empty());
                }
            },
            Some(ci) => {
                let store = &self.components[ci];
                let ghost slots = store.slots();
                let n = store.len();
                let mut idx: usize = 0;
                proof {
                    assert(slots.take(0) =~= Seq::<Option<V>>::empty());
                }
                while idx < n
                    invariant
                        idx <= n,
                        n == slots.len(),
                        store.slots() == slots,
                        deref_seq(r@) == occupied_values(slots.take(idx as int)),
                    decreases n - idx,
                {
                    let ghost r0 = r@;
                    match store.get(idx) {
                        Some(v) => r.push(v),
                        None => {},
                    }
                    proof {
                        assert(slots.take(idx + 1).drop_last() =~= slots.take(idx as int));
                        assert(slots.take(idx + 1).last() == slots[idx as int]);
                        if slots[idx as int] is Some {
                            assert(deref_seq(r@) =~= deref_seq(r0).push(
                                slots[idx as int].unwrap(),
                            ));
                        }
                    }
                    idx += 1;
                }
                proof {
                    assert(slots.take(n as int) =~= slots);
                }
            },
        }
        r
    }

    /// All `(entity, value)` pairs of component type `ty`, in ascending
    /// entity-index order, skipping tombstones.
    pub fn query_with_entity(&self, ty: u64) -> (r: Vec<(Entity, &V)>)
        requires
            self.wf(),
        ensures
            deref_entry_seq(r@) == if self.has_store(ty) {
                occupied_entries(self.store_slots(ty))
            } else {
                Seq::<(Entity, V)>::empty()
            },
    {
        let mut r: Vec<(Entity, &V)> = Vec::new();
        match self.get_index(ty) {
            None => {
                proof {
                    assert(deref_entry_seq(r@) =~= Seq::<(Entity, V)>::empty());
                }
            },
            Some(ci) => {
                let store = &self.components[ci];
                let ghost slots = store.slots();
                let n = store.len();
                let mut idx: usize = 0;
                proof {
                    assert(slots.take(0) =~= Seq::<Option<V>>::empty());
                }
                while idx < n
                    invariant
                        idx <= n,
                        n == slots.len(),
                        store.slots() == slots,
                        deref_entry_seq(r@) == occupied_entries(slots.take(idx as int)),
                    decreases n - idx,
                {
                    let ghost r0 = r@;
                    match store.get(idx) {
                        Some(v) => r.push((Entity(idx), v)),
                        None => {},
                    }
                    proof {
                        assert(slots.take(idx + 1).drop_last() =~= slots.take(idx as int));
                        assert(slots.take(idx + 1).last() == slots[idx as int]);
                        if slots[idx as int] is Some {
                            assert(deref_entry_seq(r@) =~= deref_entry_seq(r0).push(
                                (Entity(idx), slots[idx as int].unwrap()),
                            ));
                        }
                    }
                    idx += 1;
                }
                proof {
                    assert(slots.take(n as int) =~= slots);
                }
            },
        }
        r
    }

    /// The two-type tuple query, read-only: the pairs of values at
    /// indices where both component types are present (inner join), in
    /// ascending entity-index order.  Empty when either type has no
    /// store.
    pub fn query2(&self, ty_a: u64, ty_b: u64) -> (r: Vec<(&V, &V)>)
        requires
            self.wf(),
        ensures
            deref_pair_seq(r@) == if self.has_store(ty_a) && self.has_store(ty_b) {
                joined(self.store_slots(ty_a), self.store_slots(ty_b))
            } else {
                Seq::<(V, V)>::empty()
            },
    {
        let mut r: Vec<(&V, &V)> = Vec::new();
        let ia = self.get_index(ty_a);
        let ib = self.get_index(ty_b);
        match (ia, ib) {
            (Some(ia), Some(ib)) => {
                let store_a = &self.components[ia];
                let store_b = &self.components[ib];
                let ghost sa = store_a.slots();
                let ghost sb = store_b.slots();
                let n = store_a.len();
                let mut idx: usize = 0;
                proof {
                    assert(sa.take(0) =~= Seq::<Option<V>>::empty());
                    assert(joined(sa.take(0), sb.take(0)) =~= Seq::<(V, V)>::empty());
                }
                while idx < n
                    invariant
                        idx <= n,
                        n == sa.len(),
                        n == sb.len(),
                        store_a.slots() == sa,
                        store_b.slots() == sb,
                        deref_pair_seq(r@) == joined(sa.take(idx as int), sb.take(idx as int)),
                    decreases n - idx,
                {
                    let ghost r0 = r@;
                    match (store_a.get(idx), store_b.get(idx)) {
                        (Some(x), Some(y)) => r.push((x, y)),
                        _ => {},
                    }
                    proof {
                        assert(sa.take(idx + 1).drop_last() =~= sa.take(idx as int));
                        assert(sb.take(idx + 1).drop_last() =~= sb.take(idx as int));
                        assert(sa.take(idx + 1).last() == sa[idx as int]);
                        assert(sb.take(idx + 1).last() == sb[idx as int]);
                        if sa[idx as int] is Some && sb[idx as int] is Some {
                            assert(deref_pair_seq(r@) =~= deref_pair_seq(r0).push(
                                (sa[idx as int].unwrap(), sb[idx as int].unwrap()),
                            ));
                        }
                    }
                    idx += 1;
                }
                proof {
                    assert(sa.take(n as int) =~= sa);
                    assert(sb.take(n as int) =~= sb);
                }
            },
            _ => {
                proof {
                    assert(deref_pair_seq(r@) =~= Seq::<(V, V)>::empty());
                }
            },
        }
        r
    }
}


/// Pointwise effect of a single-type mutable query: tombstones stay
/// tombstones, and each occupied slot is replaced by a value the update
/// function could have returned for it.
pub open spec fn mapped_slots<V, F: Fn(&V) -> V>(
    s0: Seq<Option<V>>,
    s1: Seq<Option<V>>,
    f: F,
) -> bool {
    &&& s1.len() == s0.len()
    &&& forall|i: int|
        0 <= i < s0.len() ==> match #[trigger] s0[i] {
            None => s1[i] is None,
            Some(v) => s1[i] is Some && call_ensures(f, (&v,), s1[i].unwrap()),
        }
}

/// The full effect of a single-type mutable query: a no-op when the type
/// has no store, otherwise that store is rewritten pointwise and nothing
/// else moves.
pub open spec fn query_mut_post<V, F: Fn(&V) -> V>(
    w0: World<V>,
    w1: World<V>,
    t: u64,
    f: F,
) -> bool {
    &&& same_but_store(w0, w1, t)
    &&& w1.stores().len() == w0.stores().len()
    &&& !w0.has_store(t) ==> w1 == w0
    &&& w0.has_store(t) ==> mapped_slots(w0.store_slots(t), w1.store_slots(t), f)
}

/// Pointwise effect of a two-type mutable query: rows where both slots
/// are occupied are replaced by a pair the update function could have
/// returned; every other row is untouched in both stores.
pub open spec fn mapped_slots2<V, F: Fn(&V, &V) -> (V, V)>(
    a0: Seq<Option<V>>,
    b0: Seq<Option<V>>,
    a1: Seq<Option<V>>,
    b1: Seq<Option<V>>,
    f: F,
) -> bool {
    &&& a1.len() == a0.len()
    &&& b1.len() == b0.len()
    &&& forall|i: int|
        0 <= i < a0.len() && 0 <= i < b0.len() ==> match (#[trigger] a0[i], #[trigger] b0[i]) {
            (Some(x), Some(y)) => a1[i] is Some && b1[i] is Some && call_ensures(
                f,
                (&x, &y),
                (a1[i].unwrap(), b1[i].unwrap()),
            ),
            _ => a1[i] == a0[i] && b1[i] == b0[i],
        }
}

/// The full effect of a two-type mutable query: a no-op unless both
/// types have stores, otherwise the two stores are rewritten together on
/// their inner join and nothing else moves.
pub open spec fn query_mut2_post<V, F: Fn(&V, &V) -> (V, V)>(
    w0: World<V>,
    w1: World<V>,
    ta: u64,
    tb: u64,
    f: F,
) -> bool {
    &&& w1.num_slots() == w0.num_slots()
    &&& w1.free() == w0.free()
    &&& w1.stores().len() == w0.stores().len()
    &&& forall|u: u64| #[trigger] w1.has_store(u) == w0.has_store(u)
    &&& forall|u: u64|
        u != ta && u != tb && w0.has_store(u) ==> #[trigger] w1.store_slots(u) == w0.store_slots(u)
    &&& !(w0.has_store(ta) && w0.has_store(tb)) ==> w1 == w0
    &&& (w0.has_store(ta) && w0.has_store(tb)) ==> mapped_slots2(
        w0.store_slots(ta),
        w0.store_slots(tb),
        w1.store_slots(ta),
        w1.store_slots(tb),
        f,
    )
}

impl<V> World<V> {
    /// Rewrite every occupied slot of component type `ty` through `f`,
    /// in ascending entity-index order.  A no-op when the type has no
    /// store.
    ///
    /// This is the single-type mutable query: instead of yielding `&mut`
    /// references one by one, it applies the caller's update to each
    /// live value in place, which gives the same end state.
    pub fn query_mut<F: Fn(&V) -> V>(&mut self, ty: u64, f: F)
        requires
            old(self).wf(),
            forall|v: &V| #[trigger] call_requires(f, (v,)),
        ensures
            final(self).wf(),
            query_mut_post(*old(self), *final(self), ty, f),
    {
        let ghost w0 = *self;
        match self.get_index(ty) {
            None => {},
            Some(ci) => {
                let ghost s0 = w0.store_slots(ty);
                let n = self.components[ci].len();
                let mut idx: usize = 0;
                while idx < n
                    invariant
                        idx <= n,
                        n == s0.len(),
                        0 <= ci < self.stores().len(),
                        self.stores() == w0.stores().update(ci as int, self.stores()[ci as int]),
                        self.stores()[ci as int].ty() == ty,
                        self.stores()[ci as int].slots().len() == s0.len(),
                        w0.wf(),
                        w0.has_store(ty),
                        ci == w0.store_index(ty),
                        s0 == w0.store_slots(ty),
                        self.num_slots() == w0.num_slots(),
                        self.free() == w0.free(),
                        forall|v: &V| #[trigger] call_requires(f, (v,)),
                        forall|j: int|
                            0 <= j < idx ==> match #[trigger] s0[j] {
                                None => self.stores()[ci as int].slots()[j] is None,
                                Some(v) => self.stores()[ci as int].slots()[j] is Some
                                    && call_ensures(
                                    f,
                                    (&v,),
                                    self.stores()[ci as int].slots()[j].unwrap(),
                                ),
                            },
                        forall|j: int|
                            idx <= j < n ==> self.stores()[ci as int].slots()[j] == s0[j],
                    decreases n - idx,
                {
                    let newv = match self.components[ci].get(idx) {
                        Some(v) => Some(f(v)),
                        None => None,
                    };
                    if let Some(nv) = newv {
                        let store = &mut self.components[ci];
                        store.set(idx, nv);
                        proof {
                            assert(self.stores() =~= w0.stores().update(
                                ci as int,
                                self.stores()[ci as int],
                            ));
                        }
                    }
                    idx += 1;
                }
                proof {
                    w0.lemma_same_tys(*self);
                    assert forall|u: u64|
                        u != ty && w0.has_store(u) implies #[trigger] self.store_slots(u)
                        == w0.store_slots(u) by {
                        assert(w0.store_index(u) != ci as int);
                    }
                    assert(self.store_slots(ty) == self.stores()[ci as int].slots());
                    assert(mapped_slots(s0, self.store_slots(ty), f));
                    // the store keeps an occupied slot, so it stays used
                    assert forall|j: int|
                        0 <= j < self.stores().len() implies (#[trigger] self.stores()[j])
                        .is_used() by {
                        if j != ci as int {
                            assert(self.stores()[j] == w0.stores()[j]);
                        } else {
                            assert(w0.stores()[j].is_used());
                            let k = choose|k: int|
                                0 <= k < s0.len() && s0[k] is Some;
                            assert(self.stores()[ci as int].slots()[k] is Some);
                        }
                    }
                }
            },
        }
    }

    /// Rewrite, through `f`, every row where both component types are
    /// present (their inner join), in ascending entity-index order.  A
    /// no-op unless both types have stores.
    ///
    /// Requesting the same type twice is the one disallowed query shape:
    /// two simultaneous mutable views into one store cannot exist, so the
    /// call demands two distinct type tokens.
    pub fn query_mut2<F: Fn(&V, &V) -> (V, V)>(&mut self, ty_a: u64, ty_b: u64, f: F)
        requires
            old(self).wf(),
            ty_a != ty_b,
            forall|x: &V, y: &V| #[trigger] call_requires(f, (x, y)),
        ensures
            final(self).wf(),
            query_mut2_post(*old(self), *final(self), ty_a, ty_b, f),
    {
        let ghost w0 = *self;
        let ia = self.get_index(ty_a);
        let ib = self.get_index(ty_b);
        match (ia, ib) {
            (Some(ia), Some(ib)) => {
                let ghost a0 = w0.store_slots(ty_a);
                let ghost b0 = w0.store_slots(ty_b);
                proof {
                    assert(w0.stores()[ia as int].ty() != w0.stores()[ib as int].ty());
                }
                let n = self.components[ia].len();
                let mut idx: usize = 0;
                while idx < n
                    invariant
                        idx <= n,
                        n == a0.len(),
                        n == b0.len(),
                        ia != ib,
                        0 <= ia < self.stores().len(),
                        0 <= ib < self.stores().len(),
                        self.stores() == w0.stores().update(
                            ia as int,
                            self.stores()[ia as int],
                        ).update(ib as int, self.stores()[ib as int]),
                        self.stores()[ia as int].ty() == ty_a,
                        self.stores()[ib as int].ty() == ty_b,
                        self.stores()[ia as int].slots().len() == a0.len(),
                        self.stores()[ib as int].slots().len() == b0.len(),
                        w0.wf(),
                        w0.has_store(ty_a),
                        w0.has_store(ty_b),
                        ia == w0.store_index(ty_a),
                        ib == w0.store_index(ty_b),
                        a0 == w0.store_slots(ty_a),
                        b0 == w0.store_slots(ty_b),
                        self.num_slots() == w0.num_slots(),
                        self.free() == w0.free(),
                        forall|x: &V, y: &V| #[trigger] call_requires(f, (x, y)),
                        forall|j: int|
                            0 <= j < idx ==> match (#[trigger] a0[j], #[trigger] b0[j]) {
                                (Some(x), Some(y)) => self.stores()[ia as int].slots()[j] is Some
                                    && self.stores()[ib as int].slots()[j] is Some && call_ensures(
                                    f,
                                    (&x, &y),
                                    (
                                        self.stores()[ia as int].slots()[j].unwrap(),
                                        self.stores()[ib as int].slots()[j].unwrap(),
                                    ),
                                ),
                                _ => self.stores()[ia as int].slots()[j] == a0[j] && self.stores()[
                                    ib as int].slots()[j] == b0[j],
                            },
                        forall|j: int|
                            idx <= j < n ==> self.stores()[ia as int].slots()[j] == a0[j]
                                && self.stores()[ib as int].slots()[j] == b0[j],
                    decreases n - idx,
                {
                    let newpair = match (self.components[ia].get(idx), self.components[ib].get(
                        idx,
                    )) {
                        (Some(x), Some(y)) => Some(f(x, y)),
                        _ => None,
                    };
                    if let Some((na, nb)) = newpair {
                        let store_a = &mut self.components[ia];
                        store_a.set(idx, na);
                        let store_b = &mut self.components[ib];
                        store_b.set(idx, nb);
                        proof {
                            assert(self.stores() =~= w0.stores().update(
                                ia as int,
                                self.stores()[ia as int],
                            ).update(ib as int, self.stores()[ib as int]));
                        }
                    }
                    idx += 1;
                }
                proof {
                    w0.lemma_same_tys(*self);
                    assert forall|u: u64|
                        u != ty_a && u != ty_b && w0.has_store(u) implies
                        #[trigger] self.store_slots(u) == w0.store_slots(u) by {
                        assert(w0.store_index(u) != ia as int);
                        assert(w0.store_index(u) != ib as int);
                    }
                    assert(self.store_slots(ty_a) == self.stores()[ia as int].slots());
                    assert(self.store_slots(ty_b) == self.stores()[ib as int].slots());
                    assert(mapped_slots2(
                        a0,
                        b0,
                        self.store_slots(ty_a),
                        self.store_slots(ty_b),
                        f,
                    ));
                    assert forall|j: int|
                        0 <= j < self.stores().len() implies (#[trigger] self.stores()[j])
                        .is_used() by {
                        if j != ia as int && j != ib as int {
                            assert(self.stores()[j] == w0.stores()[j]);
                        } else if j == ia as int {
                            assert(w0.stores()[j].slots() == a0);
                            let k = choose|k: int| 0 <= k < a0.len() && a0[k] is Some;
                            if b0[k] is Some {
                                assert(self.stores()[ia as int].slots()[k] is Some);
                            } else {
                                assert(self.stores()[ia as int].slots()[k] == a0[k]);
                            }
                            assert(self.stores()[j].slots()[k] is Some);
                        } else {
                            assert(w0.stores()[j].slots() == b0);
                            let k = choose|k: int| 0 <= k < b0.len() && b0[k] is Some;
                            if a0[k] is Some {
                                assert(self.stores()[ib as int].slots()[k] is Some);
                            } else {
                                assert(self.stores()[ib as int].slots()[k] == b0[k]);
                            }
                            assert(self.stores()[j].slots()[k] is Some);
                        }
                    }
                }
            },
            _ => {},
        }
    }
}


/// Law (attach/fetch round-trip): after a value is attached as component
/// type `t` of entity `e`, `e`'s slot for `t` holds exactly that value,
/// which is what a fetch returns.
pub proof fn lemma_attach_fetch_round_trip<V>(
    w0: World<V>,
    w1: World<V>,
    e: Entity,
    t: u64,
    v: V,
)
    requires
        w0.wf(),
        e.0 < w0.num_slots(),
        attach_post(w0, w1, e, t, v),
    ensures
        w1.slot_of(t, e.0 as int) == Some(v),
{
    if w0.has_store(t) {
        assert(w0.store_slots(t).len() == w0.num_slots());
        assert(w0.stores()[w0.store_index(t)].slots().len() == w0.num_slots());
    }
    assert(attach_slots(w0, t, e, v)[e.0 as int] == Some(v));
}

/// Occupied slots survive a pointwise rewrite one for one: the rewritten
/// store yields as many values as the old one, and each yielded value is
/// one the update function could have produced from the old value in the
/// same position.
pub proof fn lemma_occupied_values_mapped<V, F: Fn(&V) -> V>(
    s0: Seq<Option<V>>,
    s1: Seq<Option<V>>,
    f: F,
)
    requires
        mapped_slots(s0, s1, f),
    ensures
        occupied_values(s1).len() == occupied_values(s0).len(),
        forall|k: int|
            0 <= k < occupied_values(s0).len() ==> call_ensures(
                f,
                (&occupied_values(s0)[k],),
                #[trigger] occupied_values(s1)[k],
            ),
    decreases s0.len(),
{
    if s0.len() > 0 {
        let h0 = s0.drop_last();
        let h1 = s1.drop_last();
        assert forall|i: int| 0 <= i < h0.len() implies match #[trigger] h0[i] {
            None => h1[i] is None,
            Some(v) => h1[i] is Some && call_ensures(f, (&v,), h1[i].unwrap()),
        } by {
            assert(h0[i] == s0[i]);
            assert(h1[i] == s1[i]);
            assert(0 <= i < s0.len());
            assert(match s0[i] {
                None => s1[i] is None,
                Some(v) => s1[i] is Some && call_ensures(f, (&v,), s1[i].unwrap()),
            });
        }
        lemma_occupied_values_mapped(h0, h1, f);
        assert(s0[s0.len() - 1] == s0.last());
        if s0.last() is Some {
            assert(s1.last() is Some);
            assert(occupied_values(s0) == occupied_values(h0).push(s0.last().unwrap()));
            assert(occupied_values(s1) == occupied_values(h1).push(s1.last().unwrap()));
        }
    }
}

/// Law (mutation visibility): once a mutable query over component type
/// `t` has run, a subsequent read query yields the same number of values
/// as before, and each value in position `k` is one the update function
/// could have returned for the old value in position `k`.
pub proof fn lemma_mutation_visibility<V, F: Fn(&V) -> V>(
    w0: World<V>,
    w1: World<V>,
    t: u64,
    f: F,
)
    requires
        w0.has_store(t),
        query_mut_post(w0, w1, t, f),
    ensures
        occupied_values(w1.store_slots(t)).len() == occupied_values(w0.store_slots(t)).len(),
        forall|k: int|
            0 <= k < occupied_values(w0.store_slots(t)).len() ==> call_ensures(
                f,
                (&occupied_values(w0.store_slots(t))[k],),
                #[trigger] occupied_values(w1.store_slots(t))[k],
            ),
{
    lemma_occupied_values_mapped(w0.store_slots(t), w1.store_slots(t), f);
}

/// Law (store pruning): detaching the last live instance of a component
/// type removes that type's store from the active set, and the store
/// count drops by exactly one.
pub proof fn lemma_store_pruning<V>(w0: World<V>, w1: World<V>, e: Entity, t: u64)
    requires
        w0.wf(),
        e.0 < w0.num_slots(),
        detach_post(w0, w1, e, t),
        w0.has_store(t),
        forall|j: int|
            0 <= j < w0.store_slots(t).len() && j != e.0 as int ==> w0.store_slots(t)[j] is None,
    ensures
        !w1.has_store(t),
        w1.stores().len() == w0.stores().len() - 1,
{
    let s1 = w0.store_slots(t).update(e.0 as int, None);
    assert forall|j: int| 0 <= j < s1.len() implies s1[j] is None by {
        if j != e.0 as int {
            assert(s1[j] == w0.store_slots(t)[j]);
        }
    }
    assert(all_none(s1));
}

/// Law (free-list LIFO reuse): destroying an entity and then creating
/// one hands the destroyed index straight back — no new index is minted
/// while a freed one is waiting.
pub proof fn lemma_free_list_lifo<V>(
    w0: World<V>,
    w1: World<V>,
    w2: World<V>,
    e: Entity,
    r: Entity,
)
    requires
        destroy_post(w0, w1, e),
        create_post(w1, w2, r),
    ensures
        r == e,
        w2.num_slots() == w0.num_slots(),
{
    assert(w1.free().len() > 0);
    assert(w1.free().last() == e);
}


/// The inner join of three slot arrays: the triples at indices where all
/// three are occupied, in ascending index order.
pub open spec fn joined3<V>(a: Seq<Option<V>>, b: Seq<Option<V>>, c: Seq<Option<V>>) -> Seq<
    (V, V, V),
>
    recommends
        a.len() == b.len(),
        b.len() == c.len(),
    decreases a.len(),
{
    if a.len() == 0 || b.len() == 0 || c.len() == 0 {
        Seq::empty()
    } else {
        let rest = joined3(a.drop_last(), b.drop_last(), c.drop_last());
        match (a.last(), b.last(), c.last()) {
            (Some(x), Some(y), Some(z)) => rest.push((x, y, z)),
            _ => rest,
        }
    }
}

/// A sequence of reference triples, read as the sequence of target
/// triples.
pub open spec fn deref_triple_seq<V>(s: Seq<(&V, &V, &V)>) -> Seq<(V, V, V)> {
    s.map_values(|p: (&V, &V, &V)| (*p.0, *p.1, *p.2))
}

/// Pointwise effect of a three-type mutable query, the three-store
/// analogue of `mapped_slots2`.
pub open spec fn mapped_slots3<V, F: Fn(&V, &V, &V) -> (V, V, V)>(
    a0: Seq<Option<V>>,
    b0: Seq<Option<V>>,
    c0: Seq<Option<V>>,
    a1: Seq<Option<V>>,
    b1: Seq<Option<V>>,
    c1: Seq<Option<V>>,
    f: F,
) -> bool {
    &&& a1.len() == a0.len()
    &&& b1.len() == b0.len()
    &&& c1.len() == c0.len()
    &&& forall|i: int|
        0 <= i < a0.len() && 0 <= i < b0.len() && 0 <= i < c0.len() ==> match (
            #[trigger] a0[i],
            #[trigger] b0[i],
            #[trigger] c0[i],
        ) {
            (Some(x), Some(y), Some(z)) => a1[i] is Some && b1[i] is Some && c1[i] is Some
                && call_ensures(f, (&x, &y, &z), (a1[i].unwrap(), b1[i].unwrap(), c1[i].unwrap())),
            _ => a1[i] == a0[i] && b1[i] == b0[i] && c1[i] == c0[i],
        }
}

/// The full effect of a three-type mutable query, the three-store
/// analogue of `query_mut2_post`.
pub open spec fn query_mut3_post<V, F: Fn(&V, &V, &V) -> (V, V, V)>(
    w0: World<V>,
    w1: World<V>,
    ta: u64,
    tb: u64,
    tc: u64,
    f: F,
) -> bool {
    &&& w1.num_slots() == w0.num_slots()
    &&& w1.free() == w0.free()
    &&& w1.stores().len() == w0.stores().len()
    &&& forall|u: u64| #[trigger] w1.has_store(u) == w0.has_store(u)
    &&& forall|u: u64|
        u != ta && u != tb && u != tc && w0.has_store(u) ==> #[trigger] w1.store_slots(u)
            == w0.store_slots(u)
    &&& !(w0.has_store(ta) && w0.has_store(tb) && w0.has_store(tc)) ==> w1 == w0
    &&& (w0.has_store(ta) && w0.has_store(tb) && w0.has_store(tc)) ==> mapped_slots3(
        w0.store_slots(ta),
        w0.store_slots(tb),
        w0.store_slots(tc),
        w1.store_slots(ta),
        w1.store_slots(tb),
        w1.store_slots(tc),
        f,
    )
}

impl<V> World<V> {
    /// The three-type tuple query, read-only: the triples of values at
    /// indices where all three component types are present (inner join),
    /// in ascending entity-index order.  Empty when any type has no
    /// store.
    pub fn query3(&self, ty_a: u64, ty_b: u64, ty_c: u64) -> (r: Vec<(&V, &V, &V)>)
        requires
            self.wf(),
        ensures
            deref_triple_seq(r@) == if self.has_store(ty_a) && self.has_store(ty_b)
                && self.has_store(ty_c) {
                joined3(self.store_slots(ty_a), self.store_slots(ty_b), self.store_slots(ty_c))
            } else {
                Seq::<(V, V, V)>::empty()
            },
    {
        let mut r: Vec<(&V, &V, &V)> = Vec::new();
        let ia = self.get_index(ty_a);
        let ib = self.get_index(ty_b);
        let ic = self.get_index(ty_c);
        match (ia, ib, ic) {
            (Some(ia), Some(ib), Some(ic)) => {
                let store_a = &self.components[ia];
                let store_b = &self.components[ib];
                let store_c = &self.components[ic];
                let ghost sa = store_a.slots();
                let ghost sb = store_b.slots();
                let ghost sc = store_c.slots();
                let n = store_a.len();
                let mut idx: usize = 0;
                proof {
                    assert(sa.take(0) =~= Seq::<Option<V>>::empty());
                    assert(joined3(sa.take(0), sb.take(0), sc.take(0)) =~= Seq::<(V, V, V)>::empty());
                }
                while idx < n
                    invariant
                        idx <= n,
                        n == sa.len(),
                        n == sb.len(),
                        n == sc.len(),
                        store_a.slots() == sa,
                        store_b.slots() == sb,
                        store_c.slots() == sc,
                        deref_triple_seq(r@) == joined3(
                            sa.take(idx as int),
                            sb.take(idx as int),
                            sc.take(idx as int),
                        ),
                    decreases n - idx,
                {
                    let ghost r0 = r@;
                    match (store_a.get(idx), store_b.get(idx), store_c.get(idx)) {
                        (Some(x), Some(y), Some(z)) => r.push((x, y, z)),
                        _ => {},
                    }
                    proof {
                        assert(sa.take(idx + 1).drop_last() =~= sa.take(idx as int));
                        assert(sb.take(idx + 1).drop_last() =~= sb.take(idx as int));
                        assert(sc.take(idx + 1).drop_last() =~= sc.take(idx as int));
                        assert(sa.take(idx + 1).last() == sa[idx as int]);
                        assert(sb.take(idx + 1).last() == sb[idx as int]);
                        assert(sc.take(idx + 1).last() == sc[idx as int]);
                        if sa[idx as int] is Some && sb[idx as int] is Some && sc[idx as int]
                            is Some {
                            assert(deref_triple_seq(r@) =~= deref_triple_seq(r0).push(
                                (
                                    sa[idx as int].unwrap(),
                                    sb[idx as int].unwrap(),
                                    sc[idx as int].unwrap(),
                                ),
                            ));
                        }
                    }
                    idx += 1;
                }
                proof {
                    assert(sa.take(n as int) =~= sa);
                    assert(sb.take(n as int) =~= sb);
                    assert(sc.take(n as int) =~= sc);
                }
            },
            _ => {
                proof {
                    assert(deref_triple_seq(r@) =~= Seq::<(V, V, V)>::empty());
                }
            },
        }
        r
    }

    /// Rewrite, through `f`, every row where all three component types
    /// are present (their inner join), in ascending entity-index order.
    /// A no-op unless all three types have stores.  As with pairs, the
    /// three type tokens must be pairwise distinct: naming one store
    /// twice would alias it.
    pub fn query_mut3<F: Fn(&V, &V, &V) -> (V, V, V)>(
        &mut self,
        ty_a: u64,
        ty_b: u64,
        ty_c: u64,
        f: F,
    )
        requires
            old(self).wf(),
            ty_a != ty_b,
            ty_a != ty_c,
            ty_b != ty_c,
            forall|x: &V, y: &V, z: &V| #[trigger] call_requires(f, (x, y, z)),
        ensures
            final(self).wf(),
            query_mut3_post(*old(self), *final(self), ty_a, ty_b, ty_c, f),
    {
        let ghost w0 = *self;
        let ia = self.get_index(ty_a);
        let ib = self.get_index(ty_b);
        let ic = self.get_index(ty_c);
        match (ia, ib, ic) {
            (Some(ia), Some(ib), Some(ic)) => {
                let ghost a0 = w0.store_slots(ty_a);
                let ghost b0 = w0.store_slots(ty_b);
                let ghost c0 = w0.store_slots(ty_c);
                let n = self.components[ia].len();
                let mut idx: usize = 0;
                while idx < n
                    invariant
                        idx <= n,
                        n == a0.len(),
                        n == b0.len(),
                        n == c0.len(),
                        ia != ib,
                        ia != ic,
                        ib != ic,
                        0 <= ia < self.stores().len(),
                        0 <= ib < self.stores().len(),
                        0 <= ic < self.stores().len(),
                        self.stores() == w0.stores().update(
                            ia as int,
                            self.stores()[ia as int],
                        ).update(ib as int, self.stores()[ib as int]).update(
                            ic as int,
                            self.stores()[ic as int],
                        ),
                        self.stores()[ia as int].ty() == ty_a,
                        self.stores()[ib as int].ty() == ty_b,
                        self.stores()[ic as int].ty() == ty_c,
                        self.stores()[ia as int].slots().len() == a0.len(),
                        self.stores()[ib as int].slots().len() == b0.len(),
                        self.stores()[ic as int].slots().len() == c0.len(),
                        w0.wf(),
                        w0.has_store(ty_a),
                        w0.has_store(ty_b),
                        w0.has_store(ty_c),
                        ia == w0.store_index(ty_a),
                        ib == w0.store_index(ty_b),
                        ic == w0.store_index(ty_c),
                        a0 == w0.store_slots(ty_a),
                        b0 == w0.store_slots(ty_b),
                        c0 == w0.store_slots(ty_c),
                        self.num_slots() == w0.num_slots(),
                        self.free() == w0.free(),
                        forall|x: &V, y: &V, z: &V| #[trigger] call_requires(f, (x, y, z)),
                        forall|j: int|
                            0 <= j < idx ==> match (
                                #[trigger] a0[j],
                                #[trigger] b0[j],
                                #[trigger] c0[j],
                            ) {
                                (Some(x), Some(y), Some(z)) => self.stores()[ia as int].slots()[j]
                                    is Some && self.stores()[ib as int].slots()[j] is Some
                                    && self.stores()[ic as int].slots()[j] is Some && call_ensures(
                                    f,
                                    (&x, &y, &z),
                                    (
                                        self.stores()[ia as int].slots()[j].unwrap(),
                                        self.stores()[ib as int].slots()[j].unwrap(),
                                        self.stores()[ic as int].slots()[j].unwrap(),
                                    ),
                                ),
                                _ => self.stores()[ia as int].slots()[j] == a0[j] && self.stores()[
                                    ib as int].slots()[j] == b0[j] && self.stores()[ic as int].slots()[j]
                                    == c0[j],
                            },
                        forall|j: int|
                            idx <= j < n ==> self.stores()[ia as int].slots()[j] == a0[j]
                                && self.stores()[ib as int].slots()[j] == b0[j] && self.stores()[
                                ic as int].slots()[j] == c0[j],
                    decreases n - idx,
                {
                    let newtriple = match (
                        self.components[ia].get(idx),
                        self.components[ib].get(idx),
                        self.components[ic].get(idx),
                    ) {
                        (Some(x), Some(y), Some(z)) => Some(f(x, y, z)),
                        _ => None,
                    };
                    if let Some((na, nb, nc)) = newtriple {
                        let store_a = &mut self.components[ia];
                        store_a.set(idx, na);
                        let store_b = &mut self.components[ib];
                        store_b.set(idx, nb);
                        let store_c = &mut self.components[ic];
                        store_c.set(idx, nc);
                        proof {
                            assert(self.stores() =~= w0.stores().update(
                                ia as int,
                                self.stores()[ia as int],
                            ).update(ib as int, self.stores()[ib as int]).update(
                                ic as int,
                                self.stores()[ic as int],
                            ));
                        }
                    }
                    idx += 1;
                }
                proof {
                    w0.lemma_same_tys(*self);
                    assert forall|u: u64|
                        u != ty_a && u != ty_b && u != ty_c && w0.has_store(u) implies
                        #[trigger] self.store_slots(u) == w0.store_slots(u) by {
                        assert(w0.store_index(u) != ia as int);
                        assert(w0.store_index(u) != ib as int);
                        assert(w0.store_index(u) != ic as int);
                    }
                    assert(self.store_slots(ty_a) == self.stores()[ia as int].slots());
                    assert(self.store_slots(ty_b) == self.stores()[ib as int].slots());
                    assert(self.store_slots(ty_c) == self.stores()[ic as int].slots());
                    assert(mapped_slots3(
                        a0,
                        b0,
                        c0,
                        self.store_slots(ty_a),
                        self.store_slots(ty_b),
                        self.store_slots(ty_c),
                        f,
                    ));
                    assert forall|j: int|
                        0 <= j < self.stores().len() implies (#[trigger] self.stores()[j])
                        .is_used() by {
                        if j != ia as int && j != ib as int && j != ic as int {
                            assert(self.stores()[j] == w0.stores()[j]);
                        } else {
                            let s0j = if j == ia as int {
                                a0
                            } else if j == ib as int {
                                b0
                            } else {
                                c0
                            };
                            assert(w0.stores()[j].slots() == s0j);
                            let k = choose|k: int| 0 <= k < s0j.len() && s0j[k] is Some;
                            if a0[k] is Some && b0[k] is Some && c0[k] is Some {
                                assert(self.stores()[j].slots()[k] is Some);
                            } else {
                                assert(self.stores()[j].slots()[k] == s0j[k]);
                            }
                            assert(self.stores()[j].slots()[k] is Some);
                        }
                    }
                }
            },
            _ => {},
        }
    }
}

} // verus!
