//! Query filters. A filter is applied statically to whole archetype tables, by their signatures,
//! before a query looks at any of their rows.

use vstd::prelude::*;

use crate::typeid::is_type_id_of;

use std::marker::PhantomData;

use crate::archetype::{Archetypes, Signature};
use crate::component::{assign_all, assigned, id_set, Component, ComponentBundle, ComponentId};

verus! {

broadcast use crate::typeid::lemma_type_id_of;

/// A description of a filter, by the id of the component it concerns.
#[derive(Debug, Default, Copy, Clone, PartialEq, Eq, Structural)]
pub enum FilterDesc {
    /// No filter.
    #[default]
    Nothing,
    /// Entities with the component.
    With(ComponentId),
    /// Entities without the component.
    Without(ComponentId),
    /// Entities whose component was added.
    Added(ComponentId),
    /// Entities whose component changed.
    Changed(ComponentId),
    /// Entities whose component was removed.
    Removed(ComponentId),
}

/// What initialising filters does to the archetypes: only the registry changes, by at most
/// `n` new ids.
pub open spec fn registered_more(before: Archetypes, after: Archetypes, n: nat) -> bool {
    &&& after.wf()
    &&& after.tables() == before.tables()
    &&& after.sigs() == before.sigs()
    &&& after.gen() == before.gen()
    &&& before.reg().next_id() <= after.reg().next_id() <= before.reg().next_id() + n
}

/// Whether `sig` is the signature of `count` component types, given ids in order by the
/// registry of `before`, which became that of `after`.
pub open spec fn signature_assigned<T: ComponentBundle>(
    before: Archetypes,
    after: Archetypes,
    sig: Signature,
) -> bool {
    exists|types: Seq<std::any::TypeId>|
        {
            &&& types.len() == T::count()
            &&& T::type_ids_are(types)
            &&& (after.reg().ids(), after.reg().next_id() as int) == #[trigger] assign_all(
                before.reg().ids(),
                before.reg().next_id() as int,
                types,
            )
            &&& sig@ == id_set(after.reg().ids(), types)
        }
}

/// A filter of the archetype tables that a query looks at.
pub trait Filter: Sized {
    /// The number of component types whose ids the filter needs.
    spec fn needed_ids() -> nat;

    /// Whether the filter accepts a table with signature `sig`.
    spec fn accepts(&self, sig: Signature) -> bool;

    /// Whether `r` is the filter that initialising takes `before` to `after` with.
    spec fn initialised(before: Archetypes, after: Archetypes, r: Self) -> bool;

    /// Initialises the filter: its components get ids where they have none yet.
    fn init(archetypes: &mut Archetypes) -> (r: Self)
        requires
            old(archetypes).wf(),
            old(archetypes).reg().next_id() + Self::needed_ids() <= usize::MAX,
        ensures
            registered_more(*old(archetypes), *final(archetypes), Self::needed_ids()),
            Self::initialised(*old(archetypes), *final(archetypes), r),
    ;

    /// Whether the filter accepts a table with signature `sig`.
    fn apply_static_filter(&self, sig: &Signature) -> (r: bool)
        ensures
            r == self.accepts(*sig),
    ;
}

/// A collection of filters, such as `(With<A>, Without<B>)`: a table passes when every filter
/// accepts it.
pub trait FilterBundle: Sized {
    /// The number of component types whose ids the filters need.
    spec fn needed_ids() -> nat;

    /// Whether every filter accepts a table with signature `sig`.
    spec fn accepts_all(&self, sig: Signature) -> bool;

    /// Whether `r` holds the filters that initialising them in order takes `before` to `after`
    /// with.
    spec fn initialised_all(before: Archetypes, after: Archetypes, r: Self) -> bool;

    /// Initialises every filter, in order.
    fn init(archetypes: &mut Archetypes) -> (r: Self)
        requires
            old(archetypes).wf(),
            old(archetypes).reg().next_id() + Self::needed_ids() <= usize::MAX,
        ensures
            registered_more(*old(archetypes), *final(archetypes), Self::needed_ids()),
            Self::initialised_all(*old(archetypes), *final(archetypes), r),
    ;

    /// Whether every filter accepts a table with signature `sig`.
    fn apply_static_filters(&self, sig: &Signature) -> (r: bool)
        ensures
            r == self.accepts_all(*sig),
    ;
}

/// The empty collection accepts every table.
impl FilterBundle for () {
    open spec fn needed_ids() -> nat {
        0
    }

    open spec fn accepts_all(&self, sig: Signature) -> bool {
        true
    }

    open spec fn initialised_all(before: Archetypes, after: Archetypes, r: Self) -> bool {
        after == before
    }

    fn init(archetypes: &mut Archetypes) -> (r: Self) {
    }

    fn apply_static_filters(&self, sig: &Signature) -> (r: bool) {
        true
    }
}

impl<A: Filter> FilterBundle for A {
    open spec fn needed_ids() -> nat {
        A::needed_ids()
    }

    open spec fn accepts_all(&self, sig: Signature) -> bool {
        self.accepts(sig)
    }

    open spec fn initialised_all(before: Archetypes, after: Archetypes, r: Self) -> bool {
        A::initialised(before, after, r)
    }

    fn init(archetypes: &mut Archetypes) -> (r: Self) {
        A::init(archetypes)
    }

    fn apply_static_filters(&self, sig: &Signature) -> (r: bool) {
        self.apply_static_filter(sig)
    }
}

impl<A: Filter, B: Filter> FilterBundle for (A, B) {
    open spec fn needed_ids() -> nat {
        A::needed_ids() + B::needed_ids()
    }

    open spec fn accepts_all(&self, sig: Signature) -> bool {
        self.0.accepts(sig) && self.1.accepts(sig)
    }

    open spec fn initialised_all(before: Archetypes, after: Archetypes, r: Self) -> bool {
        exists|m1: Archetypes|
            #[trigger] A::initialised(before, m1, r.0) && B::initialised(m1, after, r.1)
    }

    fn init(archetypes: &mut Archetypes) -> (r: Self) {
        let a = A::init(archetypes);
        let ghost m1 = *archetypes;
        let b = B::init(archetypes);
        let r = (a, b);
        assert(A::initialised(*old(archetypes), m1, r.0) && B::initialised(m1, *archetypes, r.1));
        r
    }

    fn apply_static_filters(&self, sig: &Signature) -> (r: bool) {
        self.0.apply_static_filter(sig) && self.1.apply_static_filter(sig)
    }
}

impl<A: Filter, B: Filter, C: Filter> FilterBundle for (A, B, C) {
    open spec fn needed_ids() -> nat {
        A::needed_ids() + B::needed_ids() + C::needed_ids()
    }

    open spec fn accepts_all(&self, sig: Signature) -> bool {
        self.0.accepts(sig) && self.1.accepts(sig) && self.2.accepts(sig)
    }

    open spec fn initialised_all(before: Archetypes, after: Archetypes, r: Self) -> bool {
        exists|m1: Archetypes, m2: Archetypes|
            #[trigger] A::initialised(before, m1, r.0) && #[trigger] B::initialised(m1, m2, r.1)
                && C::initialised(m2, after, r.2)
    }

    fn init(archetypes: &mut Archetypes) -> (r: Self) {
        let a = A::init(archetypes);
        let ghost m1 = *archetypes;
        let b = B::init(archetypes);
        let ghost m2 = *archetypes;
        let c = C::init(archetypes);
        let r = (a, b, c);
        assert(A::initialised(*old(archetypes), m1, r.0) && B::initialised(m1, m2, r.1)
            && C::initialised(m2, *archetypes, r.2));
        r
    }

    fn apply_static_filters(&self, sig: &Signature) -> (r: bool) {
        self.0.apply_static_filter(sig) && self.1.apply_static_filter(sig)
            && self.2.apply_static_filter(sig)
    }
}

impl<A: Filter, B: Filter, C: Filter, D: Filter> FilterBundle for (A, B, C, D) {
    open spec fn needed_ids() -> nat {
        A::needed_ids() + B::needed_ids() + C::needed_ids() + D::needed_ids()
    }

    open spec fn accepts_all(&self, sig: Signature) -> bool {
        self.0.accepts(sig) && self.1.accepts(sig) && self.2.accepts(sig) && self.3.accepts(sig)
    }

    open spec fn initialised_all(before: Archetypes, after: Archetypes, r: Self) -> bool {
        exists|m1: Archetypes, m2: Archetypes, m3: Archetypes|
            #[trigger] A::initialised(before, m1, r.0) && #[trigger] B::initialised(m1, m2, r.1)
                && #[trigger] C::initialised(m2, m3, r.2) && D::initialised(m3, after, r.3)
    }

    fn init(archetypes: &mut Archetypes) -> (r: Self) {
        let a = A::init(archetypes);
        let ghost m1 = *archetypes;
        let b = B::init(archetypes);
        let ghost m2 = *archetypes;
        let c = C::init(archetypes);
        let ghost m3 = *archetypes;
        let d = D::init(archetypes);
        let r = (a, b, c, d);
        assert(A::initialised(*old(archetypes), m1, r.0) && B::initialised(m1, m2, r.1)
            && C::initialised(m2, m3, r.2) && D::initialised(m3, *archetypes, r.3));
        r
    }

    fn apply_static_filters(&self, sig: &Signature) -> (r: bool) {
        self.0.apply_static_filter(sig) && self.1.apply_static_filter(sig)
            && self.2.apply_static_filter(sig) && self.3.apply_static_filter(sig)
    }
}

impl<A: Filter, B: Filter, C: Filter, D: Filter, E: Filter> FilterBundle for (A, B, C, D, E) {
    open spec fn needed_ids() -> nat {
        A::needed_ids() + B::needed_ids() + C::needed_ids() + D::needed_ids() + E::needed_ids()
    }

    open spec fn accepts_all(&self, sig: Signature) -> bool {
        self.0.accepts(sig) && self.1.accepts(sig) && self.2.accepts(sig) && self.3.accepts(sig)
            && self.4.accepts(sig)
    }

    open spec fn initialised_all(before: Archetypes, after: Archetypes, r: Self) -> bool {
        exists|m1: Archetypes, m2: Archetypes, m3: Archetypes, m4: Archetypes|
            #[trigger] A::initialised(before, m1, r.0) && #[trigger] B::initialised(m1, m2, r.1)
                && #[trigger] C::initialised(m2, m3, r.2) && #[trigger] D::initialised(m3, m4, r.3)
                && E::initialised(m4, after, r.4)
    }

    fn init(archetypes: &mut Archetypes) -> (r: Self) {
        let a = A::init(archetypes);
        let ghost m1 = *archetypes;
        let b = B::init(archetypes);
        let ghost m2 = *archetypes;
        let c = C::init(archetypes);
        let ghost m3 = *archetypes;
        let d = D::init(archetypes);
        let ghost m4 = *archetypes;
        let e = E::init(archetypes);
        let r = (a, b, c, d, e);
        assert(A::initialised(*old(archetypes), m1, r.0) && B::initialised(m1, m2, r.1)
            && C::initialised(m2, m3, r.2) && D::initialised(m3, m4, r.3) && E::initialised(
            m4,
            *archetypes,
            r.4,
        ));
        r
    }

    fn apply_static_filters(&self, sig: &Signature) -> (r: bool) {
        self.0.apply_static_filter(sig) && self.1.apply_static_filter(sig)
            && self.2.apply_static_filter(sig) && self.3.apply_static_filter(sig)
            && self.4.apply_static_filter(sig)
    }
}

/// Keeps the tables that have all the components of `T`.
pub struct With<T: ComponentBundle> {
    /// The components the table should have.
    signature: Signature,
    _marker: PhantomData<T>,
}

impl<T: ComponentBundle> With<T> {
    /// The components the table should have.
    pub closed spec fn signature(&self) -> Signature {
        self.signature
    }
}

impl<T: ComponentBundle> Filter for With<T> {
    open spec fn needed_ids() -> nat {
        T::count()
    }

    open spec fn accepts(&self, sig: Signature) -> bool {
        sig.covers(self.signature())
    }

    open spec fn initialised(before: Archetypes, after: Archetypes, r: Self) -> bool {
        signature_assigned::<T>(before, after, r.signature())
    }

    fn init(archetypes: &mut Archetypes) -> (r: Self) {
        let signature = archetypes.assign_signature::<T>();
        let r = With { signature, _marker: PhantomData };
        assert(r.signature() == signature);
        r
    }

    fn apply_static_filter(&self, sig: &Signature) -> (r: bool) {
        sig.contains(&self.signature)
    }
}

/// Keeps the tables that have none of the components of `T`.
pub struct Without<T: ComponentBundle> {
    /// The components the table should not have.
    signature: Signature,
    _marker: PhantomData<T>,
}

impl<T: ComponentBundle> Without<T> {
    /// The components the table should not have.
    pub closed spec fn signature(&self) -> Signature {
        self.signature
    }
}

impl<T: ComponentBundle> Filter for Without<T> {
    open spec fn needed_ids() -> nat {
        T::count()
    }

    open spec fn accepts(&self, sig: Signature) -> bool {
        sig@.disjoint(self.signature()@)
    }

    open spec fn initialised(before: Archetypes, after: Archetypes, r: Self) -> bool {
        signature_assigned::<T>(before, after, r.signature())
    }

    fn init(archetypes: &mut Archetypes) -> (r: Self) {
        let signature = archetypes.assign_signature::<T>();
        let r = Without { signature, _marker: PhantomData };
        assert(r.signature() == signature);
        r
    }

    fn apply_static_filter(&self, sig: &Signature) -> (r: bool) {
        sig.is_disjoint(&self.signature)
    }
}

/// Keeps the tables with the components of `T`; which rows were added is decided per row.
pub struct Added<T: ComponentBundle> {
    /// The components the table should have.
    signature: Signature,
    _marker: PhantomData<T>,
}

impl<T: ComponentBundle> Added<T> {
    /// The components the table should have.
    pub closed spec fn signature(&self) -> Signature {
        self.signature
    }
}

impl<T: ComponentBundle> Filter for Added<T> {
    open spec fn needed_ids() -> nat {
        T::count()
    }

    open spec fn accepts(&self, sig: Signature) -> bool {
        sig.covers(self.signature())
    }

    open spec fn initialised(before: Archetypes, after: Archetypes, r: Self) -> bool {
        signature_assigned::<T>(before, after, r.signature())
    }

    fn init(archetypes: &mut Archetypes) -> (r: Self) {
        let signature = archetypes.assign_signature::<T>();
        let r = Added { signature, _marker: PhantomData };
        assert(r.signature() == signature);
        r
    }

    fn apply_static_filter(&self, sig: &Signature) -> (r: bool) {
        sig.contains(&self.signature)
    }
}

/// Keeps the tables with the components of `T`; which rows changed is decided per row.
pub struct Changed<T: ComponentBundle> {
    /// The components the table should have.
    signature: Signature,
    _marker: PhantomData<T>,
}

impl<T: ComponentBundle> Changed<T> {
    /// The components the table should have.
    pub closed spec fn signature(&self) -> Signature {
        self.signature
    }
}

impl<T: ComponentBundle> Filter for Changed<T> {
    open spec fn needed_ids() -> nat {
        T::count()
    }

    open spec fn accepts(&self, sig: Signature) -> bool {
        sig.covers(self.signature())
    }

    open spec fn initialised(before: Archetypes, after: Archetypes, r: Self) -> bool {
        signature_assigned::<T>(before, after, r.signature())
    }

    fn init(archetypes: &mut Archetypes) -> (r: Self) {
        let signature = archetypes.assign_signature::<T>();
        let r = Changed { signature, _marker: PhantomData };
        assert(r.signature() == signature);
        r
    }

    fn apply_static_filter(&self, sig: &Signature) -> (r: bool) {
        sig.contains(&self.signature)
    }
}

/// Keeps the entities whose component `T` was removed.
pub struct Removed<T: Component> {
    id: ComponentId,
    _marker: PhantomData<T>,
}

impl<T: Component> Removed<T> {
    /// The id of the component.
    pub closed spec fn id(&self) -> ComponentId {
        self.id
    }

    /// Initialises the filter: the component gets an id where it has none yet.
    pub fn init(archetypes: &mut Archetypes) -> (r: Self)
        requires
            old(archetypes).wf(),
            old(archetypes).reg().next_id() < usize::MAX,
        ensures
            registered_more(*old(archetypes), *final(archetypes), 1),
            exists|ty: std::any::TypeId|
                is_type_id_of::<T>(ty) && #[trigger] assigned(old(archetypes).reg(), final(archetypes).reg(), ty, r.id()),
    {
        let id = archetypes.assign_component::<T>();
        let r = Removed { id, _marker: PhantomData };
        assert(r.id() == id);
        r
    }

    /// The description of this filter.
    pub fn desc(&self) -> (r: FilterDesc)
        ensures
            r == FilterDesc::Removed(self.id()),
    {
        FilterDesc::Removed(self.id)
    }
}

} // verus!
