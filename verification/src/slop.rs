//! Conversions between a public declaration and the implementation that
//! backs it, and their lifting through the standard containers.
use vstd::prelude::*;

verus! {

/// Builds `Self` from its counterpart `T` on the other side of a declaration.
pub trait FromSlop<T>: Sized {
    fn from_slop(value: T) -> Self;
}

/// The converse view of [`FromSlop`]: `self.into_slop()` is `T::from_slop(self)`.
pub trait IntoSlop<T>: Sized {
    fn into_slop(self) -> T;
}

/// Whether `t` is what `T::from_slop` may give for `s`.
pub open spec fn converts<S, T: FromSlop<S>>(s: S, t: T) -> bool {
    call_ensures(T::from_slop, (s,), t)
}

impl<S, T> IntoSlop<T> for S where T: FromSlop<S> {
    fn into_slop(self) -> (r: T)
        ensures
            converts::<S, T>(self, r),
    {
        T::from_slop(self)
    }
}

impl<S, T> FromSlop<Option<S>> for Option<T> where T: FromSlop<S> {
    fn from_slop(value: Option<S>) -> (r: Option<T>)
        ensures
            match (value, r) {
                (Some(s), Some(t)) => converts(s, t),
                (None, None) => true,
                _ => false,
            },
    {
        match value {
            Some(s) => Some(T::from_slop(s)),
            None => None,
        }
    }
}

impl<S, T, E> FromSlop<Result<S, E>> for Result<T, E> where T: FromSlop<S> {
    fn from_slop(value: Result<S, E>) -> (r: Result<T, E>)
        ensures
            match (value, r) {
                (Ok(s), Ok(t)) => converts(s, t),
                (Err(a), Err(b)) => a == b,
                _ => false,
            },
    {
        match value {
            Ok(s) => Ok(T::from_slop(s)),
            Err(e) => Err(e),
        }
    }
}

impl<S, T> FromSlop<Vec<S>> for Vec<T> where T: FromSlop<S> {
    fn from_slop(value: Vec<S>) -> (r: Vec<T>)
        ensures
            r@.len() == value@.len(),
            forall|i: int| 0 <= i < value@.len() ==> converts(#[trigger] value@[i], r@[i]),
    {
        let ghost src = value@;
        let mut rest = value;
        let mut reversed: Vec<S> = Vec::new();
        while rest.len() > 0
            invariant
                rest@.len() + reversed@.len() == src.len(),
                forall|i: int| 0 <= i < rest@.len() ==> rest@[i] == src[i],
                forall|k: int| 0 <= k < reversed@.len() ==> #[trigger] reversed@[k] == src[src.len() - 1 - k],
            decreases rest@.len(),
        {
            let s = rest.pop().unwrap();
            reversed.push(s);
        }
        let mut result: Vec<T> = Vec::new();
        while reversed.len() > 0
            invariant
                result@.len() + reversed@.len() == src.len(),
                forall|k: int| 0 <= k < reversed@.len() ==> #[trigger] reversed@[k] == src[src.len() - 1 - k],
                forall|i: int| 0 <= i < result@.len() ==> converts(src[i], #[trigger] result@[i]),
            decreases reversed@.len(),
        {
            let s = reversed.pop().unwrap();
            result.push(T::from_slop(s));
        }
        result
    }
}

impl<S, T> FromSlop<Box<S>> for Box<T> where T: FromSlop<S> {
    fn from_slop(value: Box<S>) -> (r: Box<T>)
        ensures
            converts(*value, *r),
    {
        Box::new(T::from_slop(*value))
    }
}

/// `<[S; N]>::map` with `T::from_slop`: the array of the conversions of the
/// elements, in order; each conversion meets the contract of `T::from_slop`.
#[verifier::external_body]
fn map_array<S, T: FromSlop<S>, const N: usize>(value: [S; N]) -> (r: [T; N])
    ensures
        forall|i: int| 0 <= i < N ==> converts(#[trigger] value@[i], r@[i]),
{
    value.map(T::from_slop)
}

impl<S, T, const N: usize> FromSlop<[S; N]> for [T; N] where T: FromSlop<S> {
    fn from_slop(value: [S; N]) -> (r: [T; N])
        ensures
            forall|i: int| 0 <= i < N ==> converts(#[trigger] value@[i], r@[i]),
    {
        map_array(value)
    }
}

} // verus!
