//! Memory layouts of component arrays, and the read/write flag that guards a column.

use vstd::prelude::*;

use vstd::layout::{align_of, layout_for_type_is_valid, size_of, valid_layout};

verus! {

/// The size and alignment of a value, in bytes.
///
/// A layout is valid in the sense of `std::alloc::Layout`: the alignment is a power of two and the
/// size, rounded up to the alignment, does not exceed `isize::MAX`.
#[derive(Debug, Copy, Clone)]
pub struct Layout {
    size: usize,
    align: usize,
}

/// Calls `std::alloc::Layout::from_size_align` and takes the size and alignment back out.
///
/// Claimed, as `Layout::from_size_align` documents: it succeeds exactly when the alignment is a
/// power of two and the size rounded up to the alignment does not exceed `isize::MAX`, and the
/// layout it builds has the given size and alignment.
#[verifier::external_body]
fn std_layout_from_size_align(size: usize, align: usize) -> (r: Option<(usize, usize)>)
    ensures
        r is Some <==> valid_layout(size, align),
        r is Some ==> r->0 == (size, align),
{
    match std::alloc::Layout::from_size_align(size, align) {
        Ok(l) => Some((l.size(), l.align())),
        Err(_) => None,
    }
}

/// The least multiple of `align` that is at least `size`.
pub open spec fn padded_size(size: int, align: int) -> int {
    if size % align == 0 {
        size
    } else {
        size + (align - size % align)
    }
}

/// Rounding up to a multiple of the alignment stays below any bound that is itself such a
/// multiple at least as large.
proof fn lemma_padded_size(s: int, a: int, m: int)
    requires
        a > 0,
        0 <= s,
        0 <= m,
        s <= m - m % a,
    ensures
        s <= padded_size(s, a) <= m - m % a,
        padded_size(s, a) % a == 0,
{
    vstd::arithmetic::div_mod::lemma_fundamental_div_mod(s, a);
    vstd::arithmetic::div_mod::lemma_fundamental_div_mod(m, a);
    let k = s / a;
    let q = m / a;
    let t = s % a;
    assert(0 <= t < a);
    assert(0 <= m % a < a);
    if t != 0 {
        assert(a * k < a * q) by (nonlinear_arith)
            requires
                s == a * k + t,
                t > 0,
                s <= a * q,
        ;
        assert(k < q) by (nonlinear_arith)
            requires
                a * k < a * q,
                a > 0,
        ;
        assert(a * (k + 1) <= a * q) by (nonlinear_arith)
            requires
                k + 1 <= q,
                a > 0,
        ;
        assert(padded_size(s, a) == a * (k + 1)) by (nonlinear_arith)
            requires
                s == a * k + t,
                padded_size(s, a) == s + (a - t),
        ;
        vstd::arithmetic::div_mod::lemma_mod_multiples_basic(k + 1, a);
    } else {
        vstd::arithmetic::div_mod::lemma_mod_multiples_basic(k, a);
    }
}

impl Layout {
    #[verifier::type_invariant]
    spec fn valid(&self) -> bool {
        valid_layout(self.size, self.align)
    }

    /// The size in bytes.
    pub closed spec fn bytes(&self) -> usize {
        self.size
    }

    /// The alignment in bytes.
    pub closed spec fn alignment(&self) -> usize {
        self.align
    }

    /// The layout of the type `T`.
    pub fn new<T>() -> (r: Layout)
        ensures
            r.bytes() as nat == size_of::<T>(),
            r.alignment() as nat == align_of::<T>(),
            r.bytes() % r.alignment() == 0,
            r.alignment() > 0,
    {
        layout_for_type_is_valid::<T>();
        Layout { size: core::mem::size_of::<T>(), align: core::mem::align_of::<T>() }
    }

    /// The layout with the given size and alignment, or `None` where they do not make a valid
    /// layout.
    pub fn from_size_align(size: usize, align: usize) -> (r: Option<Layout>)
        ensures
            r is Some <==> valid_layout(size, align),
            r is Some ==> r->0.bytes() == size && r->0.alignment() == align,
    {
        match std_layout_from_size_align(size, align) {
            Some((s, a)) => Some(Layout { size: s, align: a }),
            None => None,
        }
    }

    /// The size in bytes.
    pub fn size(&self) -> (r: usize)
        ensures
            r == self.bytes(),
    {
        self.size
    }

    /// The alignment in bytes.
    pub fn align(&self) -> (r: usize)
        ensures
            r == self.alignment(),
    {
        self.align
    }
}

/// The layout of an array of `n` values of `layout`: each element padded to the alignment.
///
/// The array's size, rounded up to the alignment, must fit in `isize`.
pub fn repeat_layout(layout: Layout, n: usize) -> (r: Layout)
    requires
        padded_size(layout.bytes() as int, layout.alignment() as int) * n <= isize::MAX
            - (isize::MAX as int) % (layout.alignment() as int),
    ensures
        r.bytes() == padded_size(layout.bytes() as int, layout.alignment() as int) * n,
        r.alignment() == layout.alignment(),
{
    proof {
        use_type_invariant(&layout);
        vstd::arithmetic::power2::is_pow2_equiv(layout.align as int);
        vstd::arithmetic::power::lemma_pow_positive(
            2,
            choose|i: nat| vstd::arithmetic::power::pow(2, i) == layout.align as int,
        );
        lemma_padded_size(layout.size as int, layout.align as int, isize::MAX as int);
    }
    let size = layout.size();
    let align = layout.align();
    let rem = size % align;
    let padded = if rem == 0 {
        size
    } else {
        size + (align - rem)
    };
    let total = padded.checked_mul(n).unwrap();
    Layout::from_size_align(total, align).unwrap()
}

/// The state of a flag that nobody holds.
pub const UNLOCKED: u8 = 0;

/// The state of a flag held for reading.
pub const READ: u8 = 1;

/// The state of a flag held for writing.
pub const WRITE: u8 = 2;

/// Proof that a flag was taken for reading (`W == false`) or writing (`W == true`); handing it
/// back to the flag with `release` unlocks it. Dropping it unlocks nothing: the flag is a plain
/// field, not shared through an atomic, so only `release`, which borrows the flag mutably, can
/// change it.
#[must_use]
pub struct RwGuard<const W: bool> {}

/// A flag that records whether a column is being read or written, and refuses overlapping use.
#[derive(Debug)]
pub struct RwFlag {
    state: u8,
}

impl RwFlag {
    /// The current state: `UNLOCKED`, `READ` or `WRITE`.
    pub closed spec fn view(&self) -> u8 {
        self.state
    }

    /// Creates an unlocked flag.
    pub fn new() -> (r: RwFlag)
        ensures
            r@ == UNLOCKED,
    {
        RwFlag { state: UNLOCKED }
    }

    /// The current state.
    pub fn state(&self) -> (r: u8)
        ensures
            r == self@,
    {
        self.state
    }

    /// Takes the flag for reading; it must be unlocked.
    pub fn read(&mut self) -> (r: RwGuard<false>)
        requires
            old(self)@ == UNLOCKED,
        ensures
            final(self)@ == READ,
    {
        self.read_guardless();
        RwGuard {  }
    }

    /// Takes the flag for writing; it must be unlocked.
    pub fn write(&mut self) -> (r: RwGuard<true>)
        requires
            old(self)@ == UNLOCKED,
        ensures
            final(self)@ == WRITE,
    {
        self.write_guardless();
        RwGuard {  }
    }

    /// Takes the flag for reading without a guard; it must be unlocked.
    pub fn read_guardless(&mut self)
        requires
            old(self)@ == UNLOCKED,
        ensures
            final(self)@ == READ,
    {
        if self.state < READ {
            self.state = READ;
        }
    }

    /// Takes the flag for writing without a guard; it must be unlocked.
    pub fn write_guardless(&mut self)
        requires
            old(self)@ == UNLOCKED,
        ensures
            final(self)@ == WRITE,
    {
        self.state = self.state + WRITE;
    }

    /// Unlocks the flag; it must be held.
    pub fn unlock_guardless(&mut self)
        requires
            old(self)@ != UNLOCKED,
        ensures
            final(self)@ == UNLOCKED,
    {
        self.state = UNLOCKED;
    }

    /// Hands a guard back, unlocking the flag; it must be held.
    pub fn release<const W: bool>(&mut self, guard: RwGuard<W>)
        requires
            old(self)@ != UNLOCKED,
        ensures
            final(self)@ == UNLOCKED,
    {
        self.unlock_guardless();
    }
}

impl Default for RwFlag {
    fn default() -> (r: RwFlag)
        ensures
            r@ == UNLOCKED,
    {
        RwFlag::new()
    }
}

} // verus!
