//! Runtime call dispatch: lazy calls, their callable modules, and sub-call
//! projection.
use vstd::prelude::*;

verus! {

/// Result of a module function call: nothing, as calls are made for their
/// effects, or an error message.
pub type DispatchResult = Result<(), &'static str>;

/// A lazy call (module function and argument values) that is executed by
/// `dispatch`.
pub trait Dispatchable {
    /// Where the call comes from: a signed caller, or nobody for an inherent.
    type Origin;

    /// The runtime configuration the call belongs to.
    type Trait;

    /// Execute the call on behalf of `origin`.
    fn dispatch(self, origin: Self::Origin) -> DispatchResult;
}

/// A module whose calls are values that can stand in an extrinsic.
pub trait Callable {
    /// The call type of the module.
    type Call: Dispatchable + Clone + PartialEq + Eq;
}

/// What a module function may take as a parameter.
pub trait Parameter: Clone + Eq {}

impl<T: Clone + Eq> Parameter for T {}

/// An outer call that may hold a call of module `T`.
pub trait IsSubType<T: Callable> {
    /// The inner call of module `T`, if `self` is one.
    fn is_aux_sub_type(&self) -> Option<&<T as Callable>::Call>;
}

} // verus!
