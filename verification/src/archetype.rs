//! Archetypes: the signatures that say which components an archetype (a table) holds, as sets
//! of bits, and the container of all archetype tables.

use vstd::prelude::*;

use crate::typeid::is_type_id_of;

use crate::bits::{
    bits_of, lemma_words_beyond, lemma_words_clear, lemma_words_contain, lemma_words_disjoint,
    lemma_words_empty, lemma_words_set, lemma_words_zero_extend, popcount_all, u64_count_ones,
    words_contain, words_disjoint,
};
use crate::bitset::lemma_popcount_monotone;
use crate::component::{
    lemma_pair_signature,
    assign_all, assigned, id_set, signature_lookup, Component, ComponentBundle, ComponentId,
    ComponentRegistry,
};
use crate::filter::{registered_more, FilterBundle};
use crate::handle::EntityHandle;
use crate::table::{type_index, Column, Table, TableRow};
use crate::word_vec::{
    word_list, words_get, words_len, words_new, words_resize, words_set, words_with_capacity, Words,
};

verus! {

broadcast use crate::typeid::lemma_type_id_of;

/// The number of bits in a partition.
pub const PARTITION_SIZE: usize = 64;

/// A set of bits split into 64-bit partitions, grown a partition at a time.
pub struct PartitionedSignature {
    partitions: Vec<u64>,
}

impl PartitionedSignature {
    /// The partitions.
    pub closed spec fn words(&self) -> Seq<u64> {
        self.partitions@
    }

    /// The set bits.
    pub open spec fn view(&self) -> Set<int> {
        bits_of(self.words())
    }

    /// Creates a signature without partitions.
    pub fn new() -> (r: PartitionedSignature)
        ensures
            r.words() == Seq::<u64>::empty(),
    {
        PartitionedSignature { partitions: Vec::new() }
    }

    /// Creates a signature without partitions and room for `cap` of them.
    pub fn with_capacity(cap: usize) -> (r: PartitionedSignature)
        ensures
            r.words() == Seq::<u64>::empty(),
    {
        PartitionedSignature { partitions: Vec::with_capacity(cap) }
    }

    /// The number of partitions.
    pub fn words_count(&self) -> (r: usize)
        ensures
            r == self.words().len(),
    {
        self.partitions.len()
    }

    /// Adds enough empty partitions to hold `bits` more bits.
    pub fn resize(&mut self, bits: usize)
        requires
            old(self).words().len() + bits / 64 + 1 <= usize::MAX,
        ensures
            final(self).words() == old(self).words() + Seq::new(
                (bits / 64 + if bits % 64 != 0 { 1int } else { 0int }) as nat,
                |_k: int| 0u64,
            ),
            final(self)@ == old(self)@,
    {
        let words = bits / 64 + if bits % 64 != 0 { 1 } else { 0 };
        let ghost before = self.partitions@;
        let new_len = self.partitions.len() + words;
        self.partitions.resize(new_len, 0u64);
        proof {
            let extra = Seq::new(words as nat, |_k: int| 0u64);
            assert forall|k: int| before.len() <= k < new_len implies #[trigger] self.partitions@[k] == 0 by {
                assert(cloned::<u64>(0u64, self.partitions@[k]));
            }
            assert(self.partitions@ =~= before + extra);
            assert(self.partitions@.subrange(0, before.len() as int) =~= before);
            lemma_words_zero_extend(before, self.partitions@);
        }
    }

    /// Sets bit `index` to 1. The partition holding it must exist.
    pub fn set(&mut self, index: usize)
        requires
            index / 64 < old(self).words().len(),
        ensures
            final(self)@ == old(self)@.insert(index as int),
            final(self).words().len() == old(self).words().len(),
    {
        let word = index / 64;
        let bit = index % 64;
        let w = self.partitions[word] | (1u64 << (bit as u64));
        proof {
            lemma_words_set(self.words(), index as int);
        }
        self.partitions[word] = w;
    }
}

impl Default for PartitionedSignature {
    fn default() -> (r: PartitionedSignature)
        ensures
            r.words() == Seq::<u64>::empty(),
    {
        PartitionedSignature::new()
    }
}

/// A set of bits, similar to `Vec<bool>` but more efficient with memory.
#[derive(Debug, Hash, PartialEq, Eq)]
pub struct Signature {
    words: Words,
}

impl Signature {
    /// The words of the signature.
    pub closed spec fn words(&self) -> Seq<u64> {
        word_list(self.words)
    }

    /// The set bits.
    pub open spec fn view(&self) -> Set<int> {
        bits_of(self.words())
    }

    /// Creates a new, empty bitset.
    pub fn new() -> (r: Signature)
        ensures
            r.words() == Seq::<u64>::empty(),
            r@ == Set::<int>::empty(),
    {
        let r = Signature { words: words_new() };
        assert(r@ =~= Set::<int>::empty());
        r
    }

    /// Creates a new, empty signature with enough capacity to hold `cap` bits.
    pub fn with_capacity(cap: usize) -> (r: Signature)
        ensures
            r.words() == Seq::<u64>::empty(),
            r@ == Set::<int>::empty(),
    {
        let words = cap / 64 + if cap % 64 != 0 { 1 } else { 0 };
        let r = Signature { words: words_with_capacity(words) };
        assert(r@ =~= Set::<int>::empty());
        r
    }

    /// Whether this bitset is empty: it has no words or all bits are set to 0.
    pub fn is_empty(&self) -> (r: bool)
        ensures
            r == (self@ == Set::<int>::empty()),
    {
        let n = words_len(&self.words);
        let mut i: usize = 0;
        while i < n
            invariant
                i <= n,
                n == self.words().len(),
                forall|k: int| 0 <= k < i ==> #[trigger] self.words()[k] == 0,
            decreases n - i,
        {
            if words_get(&self.words, i) != 0 {
                proof {
                    lemma_words_empty(self.words());
                }
                return false;
            }
            i += 1;
        }
        proof {
            lemma_words_empty(self.words());
        }
        true
    }

    /// Sets a bit to 1. If this bit is outside of the range of the signature, it is resized.
    pub fn set(&mut self, index: usize)
        ensures
            final(self)@ == old(self)@.insert(index as int),
            final(self).words().len() == if index / 64 < old(self).words().len() {
                old(self).words().len() as int
            } else {
                index / 64 + 1
            },
    {
        let word = index / 64;
        if word >= words_len(&self.words) {
            let ghost before = self.words();
            words_resize(&mut self.words, word + 1, 0);
            proof {
                assert(self.words().subrange(0, before.len() as int) =~= before);
                lemma_words_zero_extend(before, self.words());
            }
        }
        let bit = index % 64;
        let w = words_get(&self.words, word) | (1u64 << (bit as u64));
        proof {
            lemma_words_set(self.words(), index as int);
        }
        words_set(&mut self.words, word, w);
    }

    /// Sets a bit to 0. An index beyond the signature is 0 already, and nothing changes.
    pub fn unset(&mut self, index: usize)
        ensures
            final(self)@ == old(self)@.remove(index as int),
            final(self).words().len() == old(self).words().len(),
    {
        let word = index / 64;
        if word >= words_len(&self.words) {
            proof {
                lemma_words_beyond(self.words(), index as int);
                assert(self@ =~= self@.remove(index as int));
            }
            return;
        }
        let bit = index % 64;
        let w = words_get(&self.words, word) & !(1u64 << (bit as u64));
        proof {
            lemma_words_clear(self.words(), index as int);
        }
        words_set(&mut self.words, word, w);
    }

    /// Counts the amount of components in this signature.
    pub fn count_ones(&self) -> (r: u32)
        requires
            popcount_all(self.words()) <= u32::MAX,
        ensures
            r == popcount_all(self.words()),
    {
        let n = words_len(&self.words);
        let mut total: u32 = 0;
        let mut i: usize = 0;
        while i < n
            invariant
                i <= n,
                n == self.words().len(),
                popcount_all(self.words()) <= u32::MAX,
                total == popcount_all(self.words().take(i as int)),
            decreases n - i,
        {
            proof {
                assert(self.words().take(i as int + 1).drop_last() =~= self.words().take(i as int));
                lemma_popcount_monotone(self.words(), i as int + 1);
            }
            total = total + u64_count_ones(words_get(&self.words, i));
            i += 1;
        }
        assert(self.words().take(n as int) =~= self.words());
        total
    }

    /// Whether `other` is a subset of `self`: every bit of `other` is a bit of `self`.
    pub open spec fn covers(&self, other: Signature) -> bool {
        other@.subset_of(self@)
    }

    /// Whether `other` is a subset of `self`. Words of `other` beyond the end of `self` must be
    /// zero.
    pub fn contains(&self, other: &Signature) -> (r: bool)
        ensures
            r == self.covers(*other),
            r == other@.subset_of(self@),
    {
        let n = words_len(&self.words);
        let m = words_len(&other.words);
        let mut i: usize = 0;
        while i < m
            invariant
                n == self.words().len(),
                m == other.words().len(),
                i <= m,
                forall|j: int|
                    0 <= j < i ==> if j < n {
                        self.words()[j] & #[trigger] other.words()[j] == other.words()[j]
                    } else {
                        other.words()[j] == 0
                    },
            decreases m - i,
        {
            let b = words_get(&other.words, i);
            let ok = if i < n {
                let a = words_get(&self.words, i);
                a & b == b
            } else {
                b == 0
            };
            if !ok {
                proof {
                    assert(!words_contain(self.words(), other.words()));
                    lemma_words_contain(self.words(), other.words());
                }
                return false;
            }
            i += 1;
        }
        proof {
            assert(words_contain(self.words(), other.words()));
            lemma_words_contain(self.words(), other.words());
        }
        true
    }

    /// Whether `self` and `other` are disjoint: if `self` contains component A then `other`
    /// does not and vice versa.
    pub fn is_disjoint(&self, other: &Signature) -> (r: bool)
        ensures
            r == self@.disjoint(other@),
    {
        let n = words_len(&self.words);
        let m = words_len(&other.words);
        let mut i: usize = 0;
        while i < n && i < m
            invariant
                n == self.words().len(),
                m == other.words().len(),
                forall|j: int|
                    0 <= j < i && j < n && j < m ==> #[trigger] self.words()[j] & other.words()[j] == 0,
            decreases n - i,
        {
            let a = words_get(&self.words, i);
            let b = words_get(&other.words, i);
            if a & b != 0 {
                proof {
                    assert(!words_disjoint(self.words(), other.words()));
                    lemma_words_disjoint(self.words(), other.words());
                }
                return false;
            }
            i += 1;
        }
        proof {
            assert(words_disjoint(self.words(), other.words()));
            lemma_words_disjoint(self.words(), other.words());
        }
        true
    }
}

impl Clone for Signature {
    /// A copy with the same words.
    fn clone(&self) -> (r: Signature)
        ensures
            r.words() == self.words(),
    {
        Signature { words: self.words.clone() }
    }
}

impl Default for Signature {
    fn default() -> (r: Signature)
        ensures
            r.words() == Seq::<u64>::empty(),
    {
        Signature::new()
    }
}

impl Signature {
    /// Whether the two signatures have the same words, which is how signatures are compared when
    /// they identify an archetype.
    pub fn same_words(&self, other: &Signature) -> (r: bool)
        ensures
            r == (self.words() == other.words()),
    {
        let n = words_len(&self.words);
        let m = words_len(&other.words);
        if n != m {
            return false;
        }
        let mut i: usize = 0;
        while i < n
            invariant
                n == self.words().len(),
                m == other.words().len(),
                n == m,
                forall|j: int| 0 <= j < i ==> #[trigger] self.words()[j] == other.words()[j],
            decreases n - i,
        {
            if words_get(&self.words, i) != words_get(&other.words, i) {
                return false;
            }
            i += 1;
        }
        assert(self.words() =~= other.words());
        true
    }
}

/// A signature contains itself: every signature is a subset of itself.
pub proof fn lemma_contains_reflexive(s: Signature)
    ensures
        s.covers(s),
{
}

/// The tables of a query: a table index and the columns of the queried components, in query
/// order.
#[derive(Debug)]
pub struct TableCache {
    /// The index of the table.
    pub table: usize,
    /// The columns of the queried components.
    pub cols: Vec<usize>,
}

/// The indices `i < n` of the tables, in order, whose signature holds the bits of `archetype`
/// and which the filters accept.
pub open spec fn matching_tables<F: FilterBundle>(
    sigs: Seq<Signature>,
    archetype: Signature,
    filter: F,
    n: int,
) -> Seq<usize>
    decreases n,
{
    if n <= 0 {
        Seq::empty()
    } else if sigs[n - 1].covers(archetype) && filter.accepts_all(sigs[n - 1]) {
        matching_tables(sigs, archetype, filter, n - 1).push((n - 1) as usize)
    } else {
        matching_tables(sigs, archetype, filter, n - 1)
    }
}

/// All archetype tables. An archetype is a unique combination of components.
#[derive(Debug)]
pub struct Archetypes {
    /// The archetype generation: it moves on whenever a table is created, so that query caches
    /// know when to refresh.
    generation: u64,
    /// The component registry, which maps component types to the bits of signatures.
    pub(crate) registry: ComponentRegistry,
    /// The tables.
    tables: Vec<Table>,
    /// The signature of each table, by table index.
    lookup_array: Vec<Signature>,
}

impl Archetypes {
    /// The generation.
    pub closed spec fn gen(&self) -> u64 {
        self.generation
    }

    /// The component registry.
    pub closed spec fn reg(&self) -> ComponentRegistry {
        self.registry
    }

    /// The tables.
    pub closed spec fn tables(&self) -> Seq<Table> {
        self.tables@
    }

    /// The signature of each table.
    pub closed spec fn sigs(&self) -> Seq<Signature> {
        self.lookup_array@
    }

    /// The invariant: one signature per table, equal to the table's own; no two tables with the
    /// same signature; well-formed tables and registry.
    pub open spec fn wf(&self) -> bool {
        &&& self.reg().wf()
        &&& self.sigs().len() == self.tables().len()
        &&& forall|i: int| 0 <= i < self.tables().len() ==> (#[trigger] self.tables()[i]).wf()
            && self.tables()[i].signature().words() == self.sigs()[i].words()
        &&& forall|i: int, j: int|
            0 <= i < j < self.sigs().len() ==> (#[trigger] self.sigs()[i]).words()
                != (#[trigger] self.sigs()[j]).words()
    }

    /// Creates an empty container.
    pub fn new() -> (r: Archetypes)
        ensures
            r.wf(),
            r.gen() == 0,
            r.reg().ids() == Map::<std::any::TypeId, usize>::empty(),
            r.tables() == Seq::<Table>::empty(),
    {
        Archetypes {
            generation: 0,
            registry: ComponentRegistry::new(),
            tables: Vec::new(),
            lookup_array: Vec::new(),
        }
    }

    /// The signature of the components of `T`, assigning ids to those that have none yet; the
    /// tables do not change.
    pub fn assign_signature<T: ComponentBundle>(&mut self) -> (r: Signature)
        requires
            old(self).wf(),
            old(self).reg().next_id() + T::count() <= usize::MAX,
        ensures
            registered_more(*old(self), *final(self), T::count()),
            exists|types: Seq<std::any::TypeId>|
                {
                    &&& types.len() == T::count()
                    &&& T::type_ids_are(types)
                    &&& (final(self).reg().ids(), final(self).reg().next_id() as int)
                        == #[trigger] assign_all(
                        old(self).reg().ids(),
                        old(self).reg().next_id() as int,
                        types,
                    )
                    &&& r@ == id_set(final(self).reg().ids(), types)
                },
    {
        T::get_or_assign_signature(&mut self.registry)
    }

    /// The id of the component `T`, assigning one if it has none yet; the tables do not change.
    pub fn assign_component<T: Component>(&mut self) -> (r: ComponentId)
        requires
            old(self).wf(),
            old(self).reg().next_id() < usize::MAX,
        ensures
            registered_more(*old(self), *final(self), 1),
            exists|ty: std::any::TypeId|
                is_type_id_of::<T>(ty) && #[trigger] assigned(old(self).reg(), final(self).reg(), ty, r),
    {
        self.registry.get_or_assign::<T>()
    }

    /// The component registry.
    pub fn registry(&self) -> (r: &ComponentRegistry)
        ensures
            *r == self.reg(),
    {
        &self.registry
    }

    /// The current generation.
    pub fn generation(&self) -> (r: u64)
        ensures
            r == self.gen(),
    {
        self.generation
    }

    /// The number of archetypes (not of entities).
    pub fn len(&self) -> (r: usize)
        ensures
            r == self.tables().len(),
    {
        self.tables.len()
    }

    /// The table at `index`.
    pub fn get_by_index(&self, index: usize) -> (r: &Table)
        requires
            index < self.tables().len(),
        ensures
            *r == self.tables()[index as int],
    {
        &self.tables[index]
    }

    /// The index of the table whose signature has exactly the words of `bitset`, if any.
    ///
    /// The signatures are searched in order, and the invariant that no two tables share a
    /// signature makes the first match the only one.
    pub fn index_of(&self, bitset: &Signature) -> (r: Option<usize>)
        requires
            self.wf(),
        ensures
            r is Some ==> r->0 < self.tables().len() && self.sigs()[r->0 as int].words()
                == bitset.words(),
            r is None ==> forall|i: int|
                0 <= i < self.sigs().len() ==> (#[trigger] self.sigs()[i]).words() != bitset.words(),
    {
        let mut i: usize = 0;
        while i < self.lookup_array.len()
            invariant
                0 <= i <= self.sigs().len(),
                self.wf(),
                forall|j: int| 0 <= j < i ==> (#[trigger] self.sigs()[j]).words() != bitset.words(),
            decreases self.sigs().len() - i,
        {
            if self.lookup_array[i].same_words(bitset) {
                return Some(i);
            }
            i = i + 1;
        }
        None
    }

    /// The table whose signature has exactly the words of `bitset`, if any; a table with more
    /// components does not match.
    pub fn get_by_bitset(&self, bitset: &Signature) -> (r: Option<&Table>)
        requires
            self.wf(),
        ensures
            self.found(*bitset, r),
    {
        match self.index_of(bitset) {
            Some(i) => Some(&self.tables[i]),
            None => None,
        }
    }

    /// Whether `r` is what looking up the table with exactly the words of `bitset` gives: that
    /// table where there is one, else `None`.
    pub open spec fn found(&self, bitset: Signature, r: Option<&Table>) -> bool {
        &&& r is Some ==> exists|i: int|
            0 <= i < self.tables().len() && self.sigs()[i].words() == bitset.words() && *r->0
                == #[trigger] self.tables()[i]
        &&& r is None ==> forall|i: int|
            0 <= i < self.sigs().len() ==> (#[trigger] self.sigs()[i]).words() != bitset.words()
    }

    /// The table of the archetype made of exactly the components of `T`, if any: `None` where
    /// one of them has no id, else the table whose signature is that of `T`'s ids.
    pub fn get_by_archetype<T: ComponentBundle>(&self) -> (r: Option<&Table>)
        requires
            self.wf(),
        ensures
            exists|types: Seq<std::any::TypeId>, sig: Option<Signature>|
                {
                    &&& types.len() == T::count()
                    &&& T::type_ids_are(types)
                    &&& #[trigger] signature_lookup(self.reg().ids(), types, sig)
                    &&& sig is None ==> r is None
                    &&& sig is Some ==> self.found(sig->0, r)
                },
    {
        let looked = T::get_signature(&self.registry);
        let r = match &looked {
            Some(bitset) => self.get_by_bitset(bitset),
            None => None,
        };
        r
    }

    /// Whether some table holds `entity` and has the bits of `sig` in its signature.
    pub open spec fn holds(&self, sig: Signature, entity: EntityHandle) -> bool {
        exists|i: int|
            0 <= i < self.tables().len() && (#[trigger] self.tables()[i]).signature().covers(sig)
                && self.tables()[i].entities().contains(entity)
    }

    /// Whether some table with all the components of `sig` holds `entity`.
    pub fn holds_entity(&self, sig: &Signature, entity: EntityHandle) -> (r: bool)
        requires
            self.wf(),
        ensures
            r == self.holds(*sig, entity),
    {
        let mut i: usize = 0;
        while i < self.tables.len()
            invariant
                0 <= i <= self.tables().len(),
                self.wf(),
                forall|j: int|
                    0 <= j < i ==> !((#[trigger] self.tables()[j]).signature().covers(*sig)
                        && self.tables()[j].entities().contains(entity)),
            decreases self.tables().len() - i,
        {
            let table = &self.tables[i];
            if table.archetype().contains(sig) && table.contains_entity(entity) {
                return true;
            }
            i = i + 1;
        }
        false
    }

    /// Whether the entity is in a table that has all the components of `A`; false where one of
    /// them was never registered, since then no entity can have it.
    pub fn has_components<A: ComponentBundle>(&self, entity: EntityHandle) -> (r: bool)
        requires
            self.wf(),
        ensures
            exists|types: Seq<std::any::TypeId>, sig: Option<Signature>|
                {
                    &&& types.len() == A::count()
                    &&& A::type_ids_are(types)
                    &&& #[trigger] signature_lookup(self.reg().ids(), types, sig)
                    &&& r == (sig is Some && self.holds(sig->0, entity))
                },
    {
        match A::get_signature(&self.registry) {
            None => false,
            Some(bitset) => self.holds_entity(&bitset, entity),
        }
    }

    /// Whether the components fit the table at `index`: one value per column, each of the
    /// column's size, with room to grow where a column is full.
    pub open spec fn fits(&self, index: int, components: Seq<Vec<u8>>) -> bool {
        &&& components.len() == self.tables()[index].cols().len()
        &&& forall|k: int|
            0 <= k < components.len() ==> self.tables()[index].cols()[k].can_push(
                #[trigger] components[k]@,
            )
    }

    /// Inserts an entity with its components into the table of archetype `sig`, creating that
    /// table from `columns` where there is none yet. The generation moves on only when a table is
    /// created, so that query caches are refreshed exactly then.
    ///
    /// An existing table must take the components; a new table gets `columns`, which must be
    /// empty and take them.
    pub fn insert(
        &mut self,
        id: EntityHandle,
        sig: Signature,
        columns: Vec<Column>,
        components: &Vec<Vec<u8>>,
    ) -> (r: (usize, TableRow))
        requires
            old(self).wf(),
            (forall|i: int|
                0 <= i < old(self).sigs().len() ==> (#[trigger] old(self).sigs()[i]).words()
                    != sig.words()) ==> old(self).gen() < u64::MAX,
            forall|i: int|
                0 <= i < old(self).sigs().len() && (#[trigger] old(self).sigs()[i]).words()
                    == sig.words() ==> old(self).fits(i, components@)
                    && old(self).tables()[i].entities().len() < usize::MAX,
            forall|k: int|
                0 <= k < columns@.len() ==> (#[trigger] columns@[k]).wf() && columns@[k]@.len()
                    == 0,
            components@.len() == columns@.len(),
            forall|k: int|
                0 <= k < columns@.len() ==> columns@[k].can_push(#[trigger] components@[k]@),
        ensures
            final(self).wf(),
            final(self).reg() == old(self).reg(),
            r.0 <= old(self).tables().len(),
            final(self).tables().len() == old(self).tables().len() + if r.0 == old(self).tables().len() {
                1int
            } else {
                0int
            },
            r.0 < final(self).tables().len(),
            final(self).sigs()[r.0 as int].words() == sig.words(),
            final(self).tables()[r.0 as int].entities().last() == id,
            r.1.0 == final(self).tables()[r.0 as int].entities().len() - 1,
            forall|i: int|
                0 <= i < old(self).tables().len() && i != r.0 ==> #[trigger] final(self).tables()[i]
                    == old(self).tables()[i],
            final(self).tables()[r.0 as int].cols().len() == components@.len(),
            forall|k: int|
                0 <= k < components@.len() ==> {
                    let before = if r.0 < old(self).tables().len() {
                        old(self).tables()[r.0 as int].cols()[k]
                    } else {
                        columns@[k]
                    };
                    &&& (#[trigger] final(self).tables()[r.0 as int].cols()[k])@ == before@.push(
                        components@[k]@,
                    )
                    &&& final(self).tables()[r.0 as int].cols()[k].ty() == before.ty()
                    &&& final(self).tables()[r.0 as int].cols()[k].layout() == before.layout()
                },
            r.0 < old(self).tables().len() ==> {
                &&& final(self).gen() == old(self).gen()
                &&& final(self).sigs() == old(self).sigs()
                &&& final(self).tables()[r.0 as int].column_of() == old(self).tables()[r.0 as int].column_of()
                &&& final(self).tables()[r.0 as int].cols().len() == old(self).tables()[r.0 as int].cols().len()
                &&& final(self).tables()[r.0 as int].entities() == old(self).tables()[r.0 as int].entities().push(id)
            },
            r.0 == old(self).tables().len() ==> {
                &&& final(self).gen() == old(self).gen() + 1
                &&& final(self).sigs() == old(self).sigs().push(sig)
                &&& forall|i: int|
                    0 <= i < old(self).sigs().len() ==> (#[trigger] old(self).sigs()[i]).words()
                        != sig.words()
                &&& final(self).tables()[r.0 as int].column_of() == type_index(
                    columns@,
                    columns@.len() as int,
                )
                &&& final(self).tables()[r.0 as int].entities() == seq![id]
            },
    {
        let ghost pre = *self;
        let index = match self.index_of(&sig) {
            Some(i) => i,
            None => {
                self.generation = self.generation + 1;
                let ghost pre = *self;
                let i = self.tables.len();
                let table = Table::new(sig.clone(), columns);
                self.lookup_array.push(sig);
                self.tables.push(table);
                proof {
                    assert(self.sigs() == pre.sigs().push(sig));
                    assert(self.tables() == pre.tables().push(table));
                    assert forall|a: int, b: int|
                        0 <= a < b < self.sigs().len() implies (#[trigger] self.sigs()[a]).words()
                        != (#[trigger] self.sigs()[b]).words() by {
                        if b == pre.sigs().len() {
                            assert(pre.sigs()[a] == self.sigs()[a]);
                        } else {
                            assert(pre.sigs()[a] == self.sigs()[a]);
                            assert(pre.sigs()[b] == self.sigs()[b]);
                        }
                    }
                    assert forall|a: int| 0 <= a < self.tables().len() implies (#[trigger] self.tables()[a]).wf()
                        && self.tables()[a].signature().words() == self.sigs()[a].words() by {
                        if a < pre.tables().len() {
                            assert(pre.tables()[a] == self.tables()[a]);
                            assert(pre.sigs()[a] == self.sigs()[a]);
                        }
                    }
                }
                i
            },
        };
        let ghost mid = *self;
        proof {
            if index == pre.tables().len() {
                assert(mid.tables()[index as int].cols() == columns@);
                assert(mid.tables()[index as int].entities() == Seq::<EntityHandle>::empty());
            } else {
                assert(mid.tables() == pre.tables());
            }
        }
        let row = self.tables[index].insert(id, components);
        proof {
            assert(self.tables()[index as int].entities() == mid.tables()[index as int].entities().push(id));
            if index == pre.tables().len() {
                assert(self.tables()[index as int].entities() =~= seq![id]);
            }
            assert(self.tables() == mid.tables().update(index as int, self.tables()[index as int]));
            assert forall|a: int| 0 <= a < self.tables().len() implies (#[trigger] self.tables()[a]).wf()
                && self.tables()[a].signature().words() == self.sigs()[a].words() by {
                if a != index {
                    assert(mid.tables()[a] == self.tables()[a]);
                }
            }
        }
        (index, row)
    }

    /// The tables whose signature holds the bits of `archetype` and which the filters accept,
    /// with the columns of the queried component types in query order. `cache` is cleared and
    /// refilled.
    ///
    /// Every matching table must have a column for each queried component type.
    pub fn cache_tables<F: FilterBundle>(
        &self,
        archetype: &Signature,
        filter: &F,
        query_types: &Vec<std::any::TypeId>,
        cache: &mut Vec<TableCache>,
    )
        requires
            self.wf(),
            forall|i: int, k: int|
                0 <= i < self.tables().len() && 0 <= k < query_types@.len() && self.sigs()[i].covers(
                    *archetype,
                ) && filter.accepts_all(self.sigs()[i]) ==> (#[trigger] self.tables()[i]).column_of().contains_key(
                    #[trigger] query_types@[k],
                ),
        ensures
            final(cache)@.len() == matching_tables(
                self.sigs(),
                *archetype,
                *filter,
                self.sigs().len() as int,
            ).len(),
            forall|j: int|
                0 <= j < final(cache)@.len() ==> {
                    let t = matching_tables(
                        self.sigs(),
                        *archetype,
                        *filter,
                        self.sigs().len() as int,
                    )[j] as int;
                    &&& (#[trigger] final(cache)@[j]).table == t
                    &&& final(cache)@[j].cols@.len() == query_types@.len()
                    &&& forall|k: int|
                        0 <= k < query_types@.len() ==> final(cache)@[j].cols@[k]
                            == self.tables()[t].column_of()[#[trigger] query_types@[k]]
                },
    {
        cache.clear();
        let mut i: usize = 0;
        while i < self.lookup_array.len()
            invariant
                0 <= i <= self.sigs().len(),
                self.wf(),
                forall|i: int, k: int|
                    0 <= i < self.tables().len() && 0 <= k < query_types@.len() && self.sigs()[i].covers(
                        *archetype,
                    ) && filter.accepts_all(self.sigs()[i]) ==> (#[trigger] self.tables()[i]).column_of().contains_key(
                        #[trigger] query_types@[k],
                    ),
                cache@.len() == matching_tables(self.sigs(), *archetype, *filter, i as int).len(),
                forall|j: int|
                    0 <= j < cache@.len() ==> {
                        let t = matching_tables(self.sigs(), *archetype, *filter, i as int)[j] as int;
                        &&& (#[trigger] cache@[j]).table == t
                        &&& 0 <= t < self.tables().len()
                        &&& cache@[j].cols@.len() == query_types@.len()
                        &&& forall|k: int|
                            0 <= k < query_types@.len() ==> cache@[j].cols@[k]
                                == self.tables()[t].column_of()[#[trigger] query_types@[k]]
                    },
            decreases self.sigs().len() - i,
        {
            let sig = &self.lookup_array[i];
            if sig.contains(archetype) && filter.apply_static_filters(sig) {
                let table = &self.tables[i];
                let mut cols: Vec<usize> = Vec::new();
                let mut k: usize = 0;
                while k < query_types.len()
                    invariant
                        0 <= k <= query_types@.len(),
                        cols@.len() == k,
                        forall|q: int| 0 <= q < query_types@.len() ==> table.column_of().contains_key(#[trigger] query_types@[q]),
                        forall|q: int| 0 <= q < k ==> cols@[q] == table.column_of()[#[trigger] query_types@[q]],
                    decreases query_types@.len() - k,
                {
                    cols.push(table.column_index(&query_types[k]).unwrap());
                    k = k + 1;
                }
                cache.push(TableCache { table: i, cols });
            }
            proof {
                let m = matching_tables(self.sigs(), *archetype, *filter, i as int);
                let m1 = matching_tables(self.sigs(), *archetype, *filter, i as int + 1);
                if self.sigs()[i as int].covers(*archetype) && filter.accepts_all(self.sigs()[i as int]) {
                    assert(m1 == m.push(i));
                } else {
                    assert(m1 == m);
                }
            }
            i = i + 1;
        }
    }
}

/// There is at most one table per archetype: a table found for a signature is the only one
/// with that signature's words.
pub proof fn lemma_archetype_unique(a: Archetypes, sig: Signature, i: int, j: int)
    requires
        a.wf(),
        0 <= i < a.sigs().len(),
        0 <= j < a.sigs().len(),
        a.sigs()[i].words() == sig.words(),
        a.sigs()[j].words() == sig.words(),
    ensures
        i == j,
{
    if i < j {
        assert(a.sigs()[i].words() != a.sigs()[j].words());
    } else if j < i {
        assert(a.sigs()[j].words() != a.sigs()[i].words());
    }
}

/// An entity has a pair of components exactly when its table's signature holds the id of each:
/// a true answer names a table that holds the entity and both ids, and a false one means that one
/// of the two has no id, or that no table holding the entity has both.
pub proof fn lemma_has_pair<A: Component, B: Component>(a: Archetypes, entity: EntityHandle, r: bool)
    requires
        call_ensures(Archetypes::has_components::<(A, B)>, (&a, entity), r),
    ensures
        exists|ta: std::any::TypeId, tb: std::any::TypeId|
            {
                &&& is_type_id_of::<A>(ta)
                &&& is_type_id_of::<B>(tb)
                &&& r <==> (a.reg().ids().contains_key(ta) && a.reg().ids().contains_key(tb)
                    && exists|i: int|
                    0 <= i < a.tables().len() && (#[trigger] a.tables()[i]).entities().contains(entity)
                        && a.tables()[i].signature()@.contains(a.reg().ids()[ta] as int)
                        && a.tables()[i].signature()@.contains(a.reg().ids()[tb] as int))
            },
{
    let (types, sig) = choose|types: Seq<std::any::TypeId>, sig: Option<Signature>|
        {
            &&& types.len() == <(A, B) as ComponentBundle>::count()
            &&& <(A, B) as ComponentBundle>::type_ids_are(types)
            &&& #[trigger] signature_lookup(a.reg().ids(), types, sig)
            &&& r == (sig is Some && a.holds(sig->0, entity))
        };
    let ids = a.reg().ids();
    lemma_pair_signature::<A, B>(ids, types, sig);
    let (ta, tb) = (types[0], types[1]);
    if sig is Some {
        let want = set![ids[ta] as int, ids[tb] as int];
        assert(sig->0@ == want);
        assert forall|i: int| 0 <= i < a.tables().len() implies (#[trigger] a.tables()[i]).signature().covers(
            sig->0,
        ) == (a.tables()[i].signature()@.contains(ids[ta] as int) && a.tables()[i].signature()@.contains(
            ids[tb] as int,
        )) by {
            if a.tables()[i].signature()@.contains(ids[ta] as int) && a.tables()[i].signature()@.contains(
                ids[tb] as int,
            ) {
                assert(want.subset_of(a.tables()[i].signature()@));
            }
        }
    }
}

} // verus!