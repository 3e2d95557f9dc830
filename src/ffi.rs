//! Values handed across the host/runtime boundary.
use vstd::prelude::*;

verus! {

/// Something that has a representation across the host/runtime boundary.
pub trait RIType {
    /// The type that crosses the boundary.
    type FFIType;
}

/// Something that can be created from a boundary value.
pub trait FromFFIValue: Sized + RIType {
    /// Create `Self` from the given boundary value.
    fn from_ffi_value(arg: Self::FFIType) -> Self;
}

/// Something that can be converted into a boundary value.
pub trait IntoFFIValue: RIType {
    /// The owned value stored beside the boundary value, `()` if none is needed.
    type Owned;

    /// Convert `self` into a [`WrappedFFIValue`].
    fn into_ffi_value(&self) -> WrappedFFIValue<Self::FFIType, Self::Owned>;
}

/// A boundary value, alone or together with an owned value that keeps it valid.
pub enum WrappedFFIValue<T, O = ()> {
    Wrapped(T),
    WrappedAndOwned(T, O),
}

impl<T, O> WrappedFFIValue<T, O> {
    /// The boundary value carried by either variant.
    pub open spec fn spec_value(&self) -> T {
        match self {
            WrappedFFIValue::Wrapped(data) => *data,
            WrappedFFIValue::WrappedAndOwned(data, _) => *data,
        }
    }
}

impl<T: Copy, O> WrappedFFIValue<T, O> {
    /// Returns the wrapped boundary value.
    pub fn get(&self) -> (r: T)
        ensures
            r == self.spec_value(),
    {
        match self {
            WrappedFFIValue::Wrapped(data) => *data,
            WrappedFFIValue::WrappedAndOwned(data, _) => *data,
        }
    }
}

impl<T, O> From<T> for WrappedFFIValue<T, O> {
    fn from(val: T) -> (r: Self) {
        WrappedFFIValue::Wrapped(val)
    }
}

impl<T, O> vstd::std_specs::convert::FromSpecImpl<T> for WrappedFFIValue<T, O> {
    open spec fn obeys_from_spec() -> bool {
        true
    }

    open spec fn from_spec(v: T) -> Self {
        WrappedFFIValue::Wrapped(v)
    }
}

impl<T, O> From<(T, O)> for WrappedFFIValue<T, O> {
    fn from(val: (T, O)) -> (r: Self) {
        WrappedFFIValue::WrappedAndOwned(val.0, val.1)
    }
}

impl<T, O> vstd::std_specs::convert::FromSpecImpl<(T, O)> for WrappedFFIValue<T, O> {
    open spec fn obeys_from_spec() -> bool {
        true
    }

    open spec fn from_spec(v: (T, O)) -> Self {
        WrappedFFIValue::WrappedAndOwned(v.0, v.1)
    }
}

/// Whether an exchangeable function holds its initial implementation.
#[derive(Clone, Copy, PartialEq, Eq, Structural, Debug)]
pub enum ExchangeableFunctionState {
    /// The initial implementation is present.
    Original,
    /// The implementation has been replaced.
    Replaced,
}

/// A function whose implementation can be exchanged, once at a time, and
/// later restored. `id` tells functions apart: a restore token only fits a
/// function with the `id` of the one that issued it, so functions that must
/// not take each other's tokens need distinct ids.
pub struct ExchangeableFunction<T> {
    id: u64,
    implementation: T,
    state: ExchangeableFunctionState,
    generation: Ghost<nat>,
}

/// The initial implementation taken out by a replacement, to be put back
/// with [`ExchangeableFunction::restore_orig_implementation`] on the function
/// that issued it. Restoring is an explicit call: dropping the token without
/// it leaves the replacement in place for good.
pub struct RestoreImplementation<T> {
    owner: u64,
    original: T,
    generation: Ghost<nat>,
}

impl<T> RestoreImplementation<T> {
    /// The implementation that will be restored.
    pub closed spec fn spec_original(&self) -> T {
        self.original
    }

    /// The identity of the function that issued this token.
    pub closed spec fn spec_owner(&self) -> u64 {
        self.owner
    }

    /// Which replacement of its function issued this token.
    pub closed spec fn spec_generation(&self) -> nat {
        self.generation@
    }
}

impl<T> ExchangeableFunction<T> {
    /// The current implementation.
    pub closed spec fn spec_implementation(&self) -> T {
        self.implementation
    }

    /// Whether the initial implementation is present.
    pub closed spec fn spec_state(&self) -> ExchangeableFunctionState {
        self.state
    }

    /// The identity given at creation.
    pub closed spec fn spec_id(&self) -> u64 {
        self.id
    }

    /// How many replacements were made so far.
    pub closed spec fn spec_generation(&self) -> nat {
        self.generation@
    }

    /// Whether `t` is the token of this function's current replacement.
    pub open spec fn issued(&self, t: RestoreImplementation<T>) -> bool {
        &&& self.spec_state() == ExchangeableFunctionState::Replaced
        &&& t.spec_owner() == self.spec_id()
        &&& t.spec_generation() == self.spec_generation()
    }

    /// Create a new instance, identified by `id`, holding `impl_` as its
    /// initial implementation.
    pub fn new(id: u64, impl_: T) -> (r: Self)
        ensures
            r.spec_id() == id,
            r.spec_implementation() == impl_,
            r.spec_state() == ExchangeableFunctionState::Original,
            r.spec_generation() == 0,
    {
        ExchangeableFunction {
            id,
            implementation: impl_,
            state: ExchangeableFunctionState::Original,
            generation: Ghost(0),
        }
    }

    /// Put back the implementation held by `orig`, a token this function
    /// issued, and mark the function as holding its initial implementation,
    /// whatever its state was. Restoring a function that is already in that
    /// state with that implementation changes nothing.
    pub fn restore_orig_implementation(&mut self, orig: RestoreImplementation<T>)
        requires
            orig.spec_owner() == old(self).spec_id(),
        ensures
            old(self).spec_state() == ExchangeableFunctionState::Original
                && old(self).spec_implementation() == orig.spec_original() ==> *final(self) == *old(self),
            final(self).spec_id() == old(self).spec_id(),
            final(self).spec_generation() == old(self).spec_generation(),
            final(self).spec_implementation() == orig.spec_original(),
            final(self).spec_state() == ExchangeableFunctionState::Original,
    {
        self.implementation = orig.original;
        self.state = ExchangeableFunctionState::Original;
    }

    /// Whether the initial implementation is present.
    pub fn state(&self) -> (r: ExchangeableFunctionState)
        ensures
            r == self.spec_state(),
    {
        self.state
    }

    /// The identity given at creation.
    pub fn id(&self) -> (r: u64)
        ensures
            r == self.spec_id(),
    {
        self.id
    }
}

impl<T: Copy> ExchangeableFunction<T> {
    /// Replace the initial implementation with `new_impl`; the initial one is
    /// returned in a token that only this function takes back. Replacing an
    /// already replaced implementation is not allowed.
    pub fn replace_implementation(&mut self, new_impl: T) -> (r: RestoreImplementation<T>)
        requires
            old(self).spec_state() == ExchangeableFunctionState::Original,
        ensures
            final(self).spec_id() == old(self).spec_id(),
            final(self).spec_implementation() == new_impl,
            final(self).spec_state() == ExchangeableFunctionState::Replaced,
            final(self).spec_generation() == old(self).spec_generation() + 1,
            r.spec_original() == old(self).spec_implementation(),
            final(self).issued(r),
    {
        let old_impl = self.implementation;
        self.implementation = new_impl;
        self.state = ExchangeableFunctionState::Replaced;
        self.generation = Ghost(self.generation@ + 1);
        RestoreImplementation { owner: self.id, original: old_impl, generation: Ghost(self.generation@) }
    }

    /// Replace the implementation as [`Self::replace_implementation`] does if
    /// it is not replaced already; otherwise refuse with `None` before
    /// changing anything.
    pub fn try_replace_implementation(&mut self, new_impl: T) -> (r: Option<RestoreImplementation<T>>)
        ensures
            old(self).spec_state() == ExchangeableFunctionState::Replaced ==> r is None && *final(self)
                == *old(self),
            old(self).spec_state() == ExchangeableFunctionState::Original ==> {
                &&& r is Some
                &&& final(self).spec_id() == old(self).spec_id()
                &&& final(self).spec_implementation() == new_impl
                &&& final(self).spec_state() == ExchangeableFunctionState::Replaced
                &&& final(self).spec_generation() == old(self).spec_generation() + 1
                &&& r.unwrap().spec_original() == old(self).spec_implementation()
                &&& final(self).issued(r.unwrap())
            },
    {
        match self.state {
            ExchangeableFunctionState::Replaced => None,
            ExchangeableFunctionState::Original => Some(self.replace_implementation(new_impl)),
        }
    }

    /// Returns the current implementation.
    pub fn get(&self) -> (r: T)
        ensures
            r == self.spec_implementation(),
    {
        self.implementation
    }
}

/// A replacement followed by the restore of its own token gives back the
/// initial implementation and state; the function keeps its identity, and a
/// token of another function (another `id`) never fits it.
pub proof fn lemma_replace_then_restore<T>(
    f0: ExchangeableFunction<T>,
    f1: ExchangeableFunction<T>,
    t: RestoreImplementation<T>,
    f2: ExchangeableFunction<T>,
    g: ExchangeableFunction<T>,
)
    requires
        f0.spec_state() == ExchangeableFunctionState::Original,
        f1.spec_id() == f0.spec_id(),
        f1.spec_state() == ExchangeableFunctionState::Replaced,
        f1.issued(t),
        t.spec_original() == f0.spec_implementation(),
        f2.spec_id() == f1.spec_id(),
        f2.spec_implementation() == t.spec_original(),
        f2.spec_state() == ExchangeableFunctionState::Original,
        g.spec_id() != f0.spec_id(),
    ensures
        f2.spec_implementation() == f0.spec_implementation(),
        f2.spec_state() == f0.spec_state(),
        f2.spec_id() == f0.spec_id(),
        !g.issued(t),
        !f2.issued(t),
{
}

} // verus!
