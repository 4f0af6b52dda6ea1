use vstd::prelude::*;

verus! {

/// The minimal algebraic capability a tensor element type must supply: an
/// additive identity ("zero") and a multiplicative identity ("one").
///
/// Elements are plain copyable values: duplicating one needs no cleanup
/// coordination and creates no aliasing. The two spec functions name the
/// identity values as contracts see them; the two executable functions are
/// proved to return exactly those values.
pub trait TensorNumber: Copy + Sized {
    /// The additive identity, as contracts see it. An implementation the
    /// verifier never reads may leave it at the unspecified default.
    open spec fn spec_zero() -> Self {
        arbitrary()
    }

    /// The multiplicative identity, as contracts see it. An implementation
    /// the verifier never reads may leave it at the unspecified default.
    open spec fn spec_one() -> Self {
        arbitrary()
    }

    /// Produce the additive identity.
    fn zero() -> (r: Self)
        ensures
            r == Self::spec_zero(),
    ;

    /// Produce the multiplicative identity.
    fn one() -> (r: Self)
        ensures
            r == Self::spec_one(),
    ;
}

impl TensorNumber for i64 {
    open spec fn spec_zero() -> i64 {
        0
    }

    open spec fn spec_one() -> i64 {
        1
    }

    fn zero() -> (r: i64) {
        0
    }

    fn one() -> (r: i64) {
        1
    }
}

impl TensorNumber for i32 {
    open spec fn spec_zero() -> i32 {
        0
    }

    open spec fn spec_one() -> i32 {
        1
    }

    fn zero() -> (r: i32) {
        0
    }

    fn one() -> (r: i32) {
        1
    }
}

} // verus!
