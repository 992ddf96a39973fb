//! A seal on trait methods that only the library's own code may call.

use vstd::prelude::*;

verus! {

/// A bound on a method's type parameter that only `Sealer` meets, so that callers outside the
/// library cannot name a type to call it with.
pub trait Sealed {}

/// The one type that implements `Sealed`. Its private field keeps code outside the library from
/// making a value of it.
pub struct Sealer {
    _seal: (),
}

impl Sealed for Sealer {}

} // verus!
