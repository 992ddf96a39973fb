//! Component identifiers and the registry that hands them out.

use vstd::prelude::*;

use crate::archetype::Signature;
use crate::typeid::{is_type_id_of, type_id_of};
use crate::type_map::{type_entries, type_map_get, type_map_insert, type_map_new, TypeIndexMap};

verus! {

broadcast use crate::typeid::lemma_type_id_of;

/// A component ID: a small integer assigned to every component type.
#[derive(Debug, Copy, Clone, PartialEq, Eq, Structural, Hash)]
pub struct ComponentId(pub usize);

impl ComponentId {
    /// Wraps a raw id.
    pub fn from(v: usize) -> (r: ComponentId)
        ensures
            r.0 == v,
    {
        ComponentId(v)
    }

    /// The raw id.
    pub fn get(&self) -> (r: usize)
        ensures
            r == self.0,
    {
        self.0
    }
}

/// A marker trait for types that can be used as components.
pub trait Component: std::fmt::Debug + 'static {}

/// Maintains a consistent mapping from component type IDs to unique consecutive integers.
#[derive(Debug)]
pub struct ComponentRegistry {
    /// The map from type IDs to component IDs.
    mapping: TypeIndexMap,
    /// The next ID to be assigned to a component.
    next_id: usize,
}

impl ComponentRegistry {
    /// The assigned ids, by type.
    pub closed spec fn ids(&self) -> Map<std::any::TypeId, usize> {
        type_entries(self.mapping)
    }

    /// The next id to be assigned.
    pub closed spec fn next_id(&self) -> usize {
        self.next_id
    }

    /// Ids are assigned one after another: the assigned ids are distinct, below the next id, and
    /// as many as the next id.
    pub open spec fn wf(&self) -> bool {
        &&& self.ids().dom().finite()
        &&& self.ids().dom().len() == self.next_id()
        &&& forall|t: std::any::TypeId| #[trigger] self.ids().contains_key(t) ==> self.ids()[t] < self.next_id()
        &&& forall|a: std::any::TypeId, b: std::any::TypeId|
            #[trigger] self.ids().contains_key(a) && #[trigger] self.ids().contains_key(b) && a != b
                ==> self.ids()[a] != self.ids()[b]
    }

    /// Creates a new registry.
    pub fn new() -> (r: ComponentRegistry)
        ensures
            r.wf(),
            r.ids() == Map::<std::any::TypeId, usize>::empty(),
            r.next_id() == 0,
    {
        ComponentRegistry { mapping: type_map_new(), next_id: 0 }
    }

    /// The id registered for the type identity `ty`, if any.
    pub open spec fn lookup(&self, ty: std::any::TypeId) -> Option<ComponentId> {
        if self.ids().contains_key(ty) {
            Some(ComponentId(self.ids()[ty]))
        } else {
            None
        }
    }

    /// Returns the component id registered for the type identity `ty`, or `None`.
    pub fn get_by_type_id(&self, ty: &std::any::TypeId) -> (r: Option<ComponentId>)
        ensures
            r == self.lookup(*ty),
    {
        match type_map_get(&self.mapping, ty) {
            Some(id) => Some(ComponentId(id)),
            None => None,
        }
    }

    /// Returns the component id of the type identity `ty`, assigning the next id if it has none.
    pub fn get_or_assign_type_id(&mut self, ty: std::any::TypeId) -> (r: ComponentId)
        requires
            old(self).wf(),
            !old(self).ids().contains_key(ty) ==> old(self).next_id() < usize::MAX,
        ensures
            final(self).wf(),
            assigned(*old(self), *final(self), ty, r),
    {
        match type_map_get(&self.mapping, &ty) {
            Some(id) => ComponentId(id),
            None => {
                let id = self.next_id;
                type_map_insert(&mut self.mapping, ty, id);
                self.next_id = self.next_id + 1;
                proof {
                    let old_ids = old(self).ids();
                    assert(self.ids().dom() =~= old_ids.dom().insert(ty));
                }
                ComponentId(id)
            },
        }
    }

    /// Returns the component's id or `None` if it has not been registered.
    ///
    /// The result is the one `get_by_type_id` gives for the type identity of `T`.
    pub fn get<T: Component>(&self) -> (r: Option<ComponentId>)
        ensures
            exists|ty: std::any::TypeId| is_type_id_of::<T>(ty) && r == #[trigger] self.lookup(ty),
    {
        let ty = type_id_of::<T>();
        let r = self.get_by_type_id(&ty);
        assert(r == self.lookup(ty));
        r
    }

    /// Returns the component's id if it exists, or assigns and returns a new one if it does not.
    ///
    /// The result is the one `get_or_assign_type_id` gives for the type identity of `T`.
    pub fn get_or_assign<T: Component>(&mut self) -> (r: ComponentId)
        requires
            old(self).wf(),
            old(self).next_id() < usize::MAX,
        ensures
            final(self).wf(),
            exists|ty: std::any::TypeId|
                is_type_id_of::<T>(ty) && #[trigger] assigned(*old(self), *final(self), ty, r),
    {
        let ty = type_id_of::<T>();
        let r = self.get_or_assign_type_id(ty);
        assert(assigned(*old(self), *self, ty, r));
        r
    }
}

/// What `get_or_assign_type_id(ty)` does to a registry: a type with an id keeps it and the
/// registry is unchanged; a type without one gets the next id, and the next id moves on. Either
/// way `r` is the type's id afterwards.
pub open spec fn assigned(
    before: ComponentRegistry,
    after: ComponentRegistry,
    ty: std::any::TypeId,
    r: ComponentId,
) -> bool {
    &&& after.lookup(ty) == Some(r)
    &&& before.ids().contains_key(ty) ==> r.0 == before.ids()[ty] && after.ids() == before.ids()
        && after.next_id() == before.next_id()
    &&& !before.ids().contains_key(ty) ==> r.0 == before.next_id() && after.ids()
        == before.ids().insert(ty, before.next_id()) && after.next_id() == before.next_id() + 1
}

/// The registry's ids and next id after assigning ids to `types` in order, as
/// `get_or_assign_type_id` does for each.
pub open spec fn assign_all(
    ids: Map<std::any::TypeId, usize>,
    next: int,
    types: Seq<std::any::TypeId>,
) -> (Map<std::any::TypeId, usize>, int)
    decreases types.len(),
{
    if types.len() == 0 {
        (ids, next)
    } else {
        let (m, n) = assign_all(ids, next, types.drop_last());
        if m.contains_key(types.last()) {
            (m, n)
        } else {
            (m.insert(types.last(), n as usize), n + 1)
        }
    }
}

/// The set of the ids of `types`, each looked up in `ids`.
pub open spec fn id_set(ids: Map<std::any::TypeId, usize>, types: Seq<std::any::TypeId>) -> Set<int> {
    Set::new(|b: int| exists|i: int| 0 <= i < types.len() && b == ids[#[trigger] types[i]] as int)
}

/// What looking up the signature of `types` in `ids` gives: `None` if one of them has no id,
/// else the set of their ids.
pub open spec fn signature_lookup(
    ids: Map<std::any::TypeId, usize>,
    types: Seq<std::any::TypeId>,
    r: Option<Signature>,
) -> bool {
    &&& r is Some <==> forall|i: int| 0 <= i < types.len() ==> ids.contains_key(#[trigger] types[i])
    &&& r is Some ==> r->0@ == id_set(ids, types)
    &&& r is Some ==> r->0.words().len() == words_needed(ids, types)
}

/// The number of words of the signature that sets the ids of `types` in order, starting from an
/// empty one: one past the word of the largest id.
pub open spec fn words_needed(ids: Map<std::any::TypeId, usize>, types: Seq<std::any::TypeId>) -> int
    decreases types.len(),
{
    if types.len() == 0 {
        0
    } else {
        let p = words_needed(ids, types.drop_last());
        let w = ids[types.last()] / 64 + 1;
        if w <= p {
            p
        } else {
            w
        }
    }
}

/// The words needed depend only on the ids of the types involved.
proof fn lemma_words_needed_agree(
    m1: Map<std::any::TypeId, usize>,
    m2: Map<std::any::TypeId, usize>,
    types: Seq<std::any::TypeId>,
)
    requires
        forall|i: int| 0 <= i < types.len() ==> m1[#[trigger] types[i]] == m2[types[i]],
    ensures
        words_needed(m1, types) == words_needed(m2, types),
    decreases types.len(),
{
    if types.len() > 0 {
        let d = types.drop_last();
        assert forall|i: int| 0 <= i < d.len() implies m1[#[trigger] d[i]] == m2[d[i]] by {
            assert(d[i] == types[i]);
        }
        lemma_words_needed_agree(m1, m2, d);
        assert(types.last() == types[types.len() - 1]);
    }
}

/// Assigning ids keeps the assigned ones and assigns at most one per type.
proof fn lemma_assign_all(ids: Map<std::any::TypeId, usize>, next: int, types: Seq<std::any::TypeId>)
    ensures
        assign_all(ids, next, types).1 <= next + types.len(),
        next <= assign_all(ids, next, types).1,
        forall|t: std::any::TypeId| #[trigger] ids.contains_key(t) ==> assign_all(ids, next, types).0.contains_key(t)
            && assign_all(ids, next, types).0[t] == ids[t],
        forall|i: int| 0 <= i < types.len() ==> assign_all(ids, next, types).0.contains_key(#[trigger] types[i]),
    decreases types.len(),
{
    if types.len() > 0 {
        lemma_assign_all(ids, next, types.drop_last());
        let (m, n) = assign_all(ids, next, types.drop_last());
        assert forall|i: int| 0 <= i < types.len() implies assign_all(ids, next, types).0.contains_key(#[trigger] types[i]) by {
            if i < types.len() - 1 {
                assert(types.drop_last()[i] == types[i]);
            }
        }
    }
}

impl ComponentRegistry {
    /// The signature of the component types `types`, assigning ids to those that have none yet,
    /// in order.
    ///
    /// The id counter must have room for one new id per type.
    pub fn get_or_assign_signature(&mut self, types: &Vec<std::any::TypeId>) -> (r: Signature)
        requires
            old(self).wf(),
            old(self).next_id() + types@.len() <= usize::MAX,
        ensures
            final(self).wf(),
            (final(self).ids(), final(self).next_id() as int) == assign_all(
                old(self).ids(),
                old(self).next_id() as int,
                types@,
            ),
            r@ == id_set(final(self).ids(), types@),
            r.words().len() == words_needed(final(self).ids(), types@),
            old(self).next_id() <= final(self).next_id() <= old(self).next_id() + types@.len(),
    {
        let mut sig = Signature::new();
        let mut i: usize = 0;
        while i < types.len()
            invariant
                0 <= i <= types@.len(),
                self.wf(),
                old(self).next_id() + types@.len() <= usize::MAX,
                (self.ids(), self.next_id() as int) == assign_all(
                    old(self).ids(),
                    old(self).next_id() as int,
                    types@.take(i as int),
                ),
                sig@ == id_set(self.ids(), types@.take(i as int)),
                sig.words().len() == words_needed(self.ids(), types@.take(i as int)),
            decreases types@.len() - i,
        {
            proof {
                lemma_assign_all(old(self).ids(), old(self).next_id() as int, types@.take(i as int));
                assert(types@.take(i as int + 1).drop_last() =~= types@.take(i as int));
            }
            let ghost before = self.ids();
            let id = self.get_or_assign_type_id(types[i]);
            sig.set(id.0);
            i = i + 1;
            proof {
                let ts = types@.take(i as int);
                assert(ts.last() == types@[i - 1]);
                lemma_assign_all(old(self).ids(), old(self).next_id() as int, types@.take(i - 1));
                assert forall|b: int| sig@.contains(b) <==> id_set(self.ids(), ts).contains(b) by {
                    if id_set(self.ids(), ts).contains(b) {
                        let k = choose|k: int| 0 <= k < ts.len() && b == self.ids()[#[trigger] ts[k]] as int;
                        if k < i - 1 {
                            assert(types@.take(i - 1)[k] == ts[k]);
                            assert(id_set(before, types@.take(i - 1)).contains(b));
                        }
                    }
                    if sig@.contains(b) && b != id.0 as int {
                        assert(id_set(before, types@.take(i - 1)).contains(b));
                        let k = choose|k: int| 0 <= k < i - 1 && b == before[#[trigger] types@.take(i - 1)[k]] as int;
                        assert(ts[k] == types@.take(i - 1)[k]);
                    }
                }
                assert(sig@ =~= id_set(self.ids(), ts));
                let prev = types@.take(i - 1);
                assert(ts.drop_last() =~= prev);
                assert forall|k: int| 0 <= k < prev.len() implies before[#[trigger] prev[k]] == self.ids()[prev[k]] by {
                    assert(before.contains_key(prev[k]));
                }
                lemma_words_needed_agree(before, self.ids(), prev);
            }
        }
        assert(types@.take(types@.len() as int) =~= types@);
        proof {
            lemma_assign_all(old(self).ids(), old(self).next_id() as int, types@);
        }
        sig
    }

    /// The signature of the component types `types`, or `None` if one of them has no id.
    pub fn get_signature(&self, types: &Vec<std::any::TypeId>) -> (r: Option<Signature>)
        ensures
            signature_lookup(self.ids(), types@, r),
    {
        let mut sig = Signature::new();
        let mut i: usize = 0;
        while i < types.len()
            invariant
                0 <= i <= types@.len(),
                forall|k: int| 0 <= k < i ==> self.ids().contains_key(#[trigger] types@[k]),
                sig@ == id_set(self.ids(), types@.take(i as int)),
                sig.words().len() == words_needed(self.ids(), types@.take(i as int)),
            decreases types@.len() - i,
        {
            match self.get_by_type_id(&types[i]) {
                None => {
                    return None;
                },
                Some(id) => {
                    sig.set(id.0);
                    i = i + 1;
                    proof {
                        let ts = types@.take(i as int);
                        assert(ts[i - 1] == types@[i - 1]);
                        assert forall|b: int| sig@.contains(b) <==> id_set(self.ids(), ts).contains(b) by {
                            if b == id.0 as int {
                                assert(b == self.ids()[ts[i - 1]] as int);
                            }
                            if id_set(self.ids(), ts).contains(b) {
                                let k = choose|k: int| 0 <= k < ts.len() && b == self.ids()[#[trigger] ts[k]] as int;
                                if k < i - 1 {
                                    assert(types@.take(i - 1)[k] == ts[k]);
                                }
                            }
                            if sig@.contains(b) && b != id.0 as int {
                                let k = choose|k: int| 0 <= k < i - 1 && b == self.ids()[#[trigger] types@.take(i - 1)[k]] as int;
                                assert(ts[k] == types@.take(i - 1)[k]);
                            }
                        }
                        assert(sig@ =~= id_set(self.ids(), ts));
                        assert(ts.drop_last() =~= types@.take(i - 1));
                    }
                },
            }
        }
        assert(types@.take(types@.len() as int) =~= types@);
        Some(sig)
    }
}

/// A collection of component types, such as `(Health, Transform)`, used in filters.
pub trait ComponentBundle {
    /// The number of component types in the collection.
    spec fn count() -> nat;

    /// Whether `ids` are the type identities of the component types, in order: `ids[i]` is the
    /// type identity of the `i`-th component type.
    spec fn type_ids_are(ids: Seq<std::any::TypeId>) -> bool;

    /// The type identities of the component types, in order.
    fn type_ids() -> (r: Vec<std::any::TypeId>)
        ensures
            r@.len() == Self::count(),
            Self::type_ids_are(r@),
    ;

    /// The signature of the collection: the ids of its component types, assigning ids to those
    /// that have none yet.
    fn get_or_assign_signature(reg: &mut ComponentRegistry) -> (r: Signature)
        requires
            old(reg).wf(),
            old(reg).next_id() + Self::count() <= usize::MAX,
        ensures
            final(reg).wf(),
            old(reg).next_id() <= final(reg).next_id() <= old(reg).next_id() + Self::count(),
            exists|types: Seq<std::any::TypeId>|
                {
                    &&& types.len() == Self::count()
                    &&& Self::type_ids_are(types)
                    &&& (final(reg).ids(), final(reg).next_id() as int) == #[trigger] assign_all(
                        old(reg).ids(),
                        old(reg).next_id() as int,
                        types,
                    )
                    &&& r@ == id_set(final(reg).ids(), types)
                },
    {
        let types = Self::type_ids();
        reg.get_or_assign_signature(&types)
    }

    /// The signature of the collection, or `None` if one of its component types has no id.
    fn get_signature(reg: &ComponentRegistry) -> (r: Option<Signature>)
        ensures
            exists|types: Seq<std::any::TypeId>|
                types.len() == Self::count() && Self::type_ids_are(types) && #[trigger] signature_lookup(
                    reg.ids(),
                    types,
                    r,
                ),
    {
        let types = Self::type_ids();
        let r = reg.get_signature(&types);
        assert(signature_lookup(reg.ids(), types@, r));
        r
    }
}

impl<A: Component> ComponentBundle for A {
    open spec fn count() -> nat {
        1
    }

    open spec fn type_ids_are(ids: Seq<std::any::TypeId>) -> bool {
        ids.len() == 1 && is_type_id_of::<A>(ids[0])
    }

    fn type_ids() -> (r: Vec<std::any::TypeId>) {
        vec![type_id_of::<A>()]
    }
}

impl<A: Component, B: Component> ComponentBundle for (A, B) {
    open spec fn count() -> nat {
        2
    }

    open spec fn type_ids_are(ids: Seq<std::any::TypeId>) -> bool {
        ids.len() == 2 && is_type_id_of::<A>(ids[0]) && is_type_id_of::<B>(ids[1])
    }

    fn type_ids() -> (r: Vec<std::any::TypeId>) {
        vec![type_id_of::<A>(), type_id_of::<B>()]
    }
}

impl<A: Component, B: Component, C: Component> ComponentBundle for (A, B, C) {
    open spec fn count() -> nat {
        3
    }

    open spec fn type_ids_are(ids: Seq<std::any::TypeId>) -> bool {
        &&& ids.len() == 3
        &&& is_type_id_of::<A>(ids[0])
        &&& is_type_id_of::<B>(ids[1])
        &&& is_type_id_of::<C>(ids[2])
    }

    fn type_ids() -> (r: Vec<std::any::TypeId>) {
        vec![type_id_of::<A>(), type_id_of::<B>(), type_id_of::<C>()]
    }
}

impl<A: Component, B: Component, C: Component, D: Component> ComponentBundle for (A, B, C, D) {
    open spec fn count() -> nat {
        4
    }

    open spec fn type_ids_are(ids: Seq<std::any::TypeId>) -> bool {
        &&& ids.len() == 4
        &&& is_type_id_of::<A>(ids[0])
        &&& is_type_id_of::<B>(ids[1])
        &&& is_type_id_of::<C>(ids[2])
        &&& is_type_id_of::<D>(ids[3])
    }

    fn type_ids() -> (r: Vec<std::any::TypeId>) {
        vec![type_id_of::<A>(), type_id_of::<B>(), type_id_of::<C>(), type_id_of::<D>()]
    }
}

impl<
    A: Component,
    B: Component,
    C: Component,
    D: Component,
    E: Component,
> ComponentBundle for (A, B, C, D, E) {
    open spec fn count() -> nat {
        5
    }

    open spec fn type_ids_are(ids: Seq<std::any::TypeId>) -> bool {
        &&& ids.len() == 5
        &&& is_type_id_of::<A>(ids[0])
        &&& is_type_id_of::<B>(ids[1])
        &&& is_type_id_of::<C>(ids[2])
        &&& is_type_id_of::<D>(ids[3])
        &&& is_type_id_of::<E>(ids[4])
    }

    fn type_ids() -> (r: Vec<std::any::TypeId>) {
        vec![
            type_id_of::<A>(),
            type_id_of::<B>(),
            type_id_of::<C>(),
            type_id_of::<D>(),
            type_id_of::<E>(),
        ]
    }
}

/// Asking twice for the id of a type gives the same id, and different types get different ids.
pub proof fn lemma_ids_stable_and_unique(
    r: ComponentRegistry,
    a: std::any::TypeId,
    b: std::any::TypeId,
)
    requires
        r.wf(),
        r.ids().contains_key(a),
        r.ids().contains_key(b),
    ensures
        (r.ids()[a] == r.ids()[b]) <==> (a == b),
{
}

/// The ids handed out are exactly `0 .. next_id`: every number below the next id belongs to
/// some registered type.
pub proof fn lemma_ids_consecutive(r: ComponentRegistry, n: int)
    requires
        r.wf(),
        0 <= n < r.next_id(),
    ensures
        exists|t: std::any::TypeId| #[trigger] r.ids().contains_key(t) && r.ids()[t] == n,
{
    let dom = r.ids().dom();
    let f = |t: std::any::TypeId| r.ids()[t] as int;
    let image = dom.map(f);
    let range = vstd::set_lib::set_int_range(0, r.next_id() as int);
    assert(vstd::relations::injective_on(f, dom)) by {
        assert forall|a: std::any::TypeId, b: std::any::TypeId|
            dom.contains(a) && dom.contains(b) && #[trigger] f(a) == #[trigger] f(b) implies a == b by {
            if a != b {
                assert(r.ids().contains_key(a) && r.ids().contains_key(b));
            }
        }
    }
    vstd::set_lib::lemma_map_size(dom, image, f);
    vstd::set_lib::lemma_int_range(0, r.next_id() as int);
    assert(image.subset_of(range)) by {
        assert forall|m: int| image.contains(m) implies range.contains(m) by {
            let t = choose|t: std::any::TypeId| dom.contains(t) && m == f(t);
            assert(r.ids().contains_key(t));
        }
    }
    vstd::set_lib::lemma_subset_equality(image, range);
    assert(range.contains(n));
    assert(image.contains(n));
    let t = choose|t: std::any::TypeId| dom.contains(t) && n == f(t);
    assert(r.ids().contains_key(t) && r.ids()[t] == n);
}

/// The signature of a bundle of three component types holds exactly their three ids: the id of
/// `A`, of `B` and of `C`, looked up in the registry.
pub proof fn lemma_triple_signature<A: Component, B: Component, C: Component>(
    ids: Map<std::any::TypeId, usize>,
    types: Seq<std::any::TypeId>,
    sig: Option<Signature>,
)
    requires
        <(A, B, C) as ComponentBundle>::type_ids_are(types),
        signature_lookup(ids, types, sig),
        sig is Some,
    ensures
        exists|a: std::any::TypeId, b: std::any::TypeId, c: std::any::TypeId|
            is_type_id_of::<A>(a) && is_type_id_of::<B>(b) && is_type_id_of::<C>(c) && ids.contains_key(a)
                && ids.contains_key(b) && ids.contains_key(c) && sig->0@ == set![
                ids[a] as int,
                ids[b] as int,
                ids[c] as int,
            ],
{
    let (a, b, c) = (types[0], types[1], types[2]);
    assert(ids.contains_key(types[0]) && ids.contains_key(types[1]) && ids.contains_key(types[2]));
    assert forall|x: int| id_set(ids, types).contains(x) <==> set![
        ids[a] as int,
        ids[b] as int,
        ids[c] as int,
    ].contains(x) by {
        if id_set(ids, types).contains(x) {
            let i = choose|i: int| 0 <= i < types.len() && x == ids[#[trigger] types[i]] as int;
        }
        if x == ids[a] as int {
            assert(x == ids[types[0]] as int);
        }
        if x == ids[b] as int {
            assert(x == ids[types[1]] as int);
        }
        if x == ids[c] as int {
            assert(x == ids[types[2]] as int);
        }
    }
    assert(sig->0@ =~= set![ids[a] as int, ids[b] as int, ids[c] as int]);
}

/// The signature of a bundle of two component types holds exactly their two ids.
pub proof fn lemma_pair_signature<A: Component, B: Component>(
    ids: Map<std::any::TypeId, usize>,
    types: Seq<std::any::TypeId>,
    sig: Option<Signature>,
)
    requires
        <(A, B) as ComponentBundle>::type_ids_are(types),
        signature_lookup(ids, types, sig),
    ensures
        sig is Some <==> ids.contains_key(types[0]) && ids.contains_key(types[1]),
        sig is Some ==> exists|a: std::any::TypeId, b: std::any::TypeId|
            is_type_id_of::<A>(a) && is_type_id_of::<B>(b) && ids.contains_key(a) && ids.contains_key(b)
                && sig->0@ == set![ids[a] as int, ids[b] as int],
{
    let (a, b) = (types[0], types[1]);
    if sig is Some {
        assert(ids.contains_key(types[0]) && ids.contains_key(types[1]));
        assert forall|x: int| id_set(ids, types).contains(x) <==> set![
            ids[a] as int,
            ids[b] as int,
        ].contains(x) by {
            if id_set(ids, types).contains(x) {
                let i = choose|i: int| 0 <= i < types.len() && x == ids[#[trigger] types[i]] as int;
            }
            if x == ids[a] as int {
                assert(x == ids[types[0]] as int);
            }
            if x == ids[b] as int {
                assert(x == ids[types[1]] as int);
            }
        }
        assert(sig->0@ =~= set![ids[a] as int, ids[b] as int]);
    } else {
        if ids.contains_key(types[0]) && ids.contains_key(types[1]) {
            assert forall|i: int| 0 <= i < types.len() implies ids.contains_key(#[trigger] types[i]) by {}
        }
    }
}

/// Asking the registry for a component that already has an id gives that id back and leaves the
/// registry as it was; a component without one gets the next id. Either way the id is the one the
/// registry holds afterwards for the component's type identity.
pub proof fn lemma_get_or_assign_of<T: Component>(
    before: ComponentRegistry,
    after: ComponentRegistry,
    r: ComponentId,
)
    requires
        exists|ty: std::any::TypeId| is_type_id_of::<T>(ty) && #[trigger] assigned(before, after, ty, r),
    ensures
        exists|ty: std::any::TypeId|
            is_type_id_of::<T>(ty) && after.lookup(ty) == Some(r) && (before.ids().contains_key(ty)
                ==> r.0 == before.ids()[ty] && after.ids() == before.ids()) && (!before.ids().contains_key(
                ty,
            ) ==> r.0 == before.next_id()),
{
}

} // verus!
