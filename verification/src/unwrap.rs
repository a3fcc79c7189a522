//! Moving the payload of an `Option` into a variable.
use vstd::prelude::*;

verus! {

/// Stores the value that `t` holds in `out` and tells whether there was one.
pub fn unwrap_into<T>(t: Option<T>, out: &mut T) -> (r: bool)
    ensures
        r == (t is Some),
        *final(out) == (match t {
            Some(v) => v,
            None => *old(out),
        }),
{
    match t {
        Some(v) => {
            *out = v;
            true
        },
        _ => false,
    }
}

/// Stores a copy of the value that `t` points at in `out` and tells whether there was one.
pub fn unwrap_into_copy<T: Copy>(t: Option<&T>, out: &mut T) -> (r: bool)
    ensures
        r == (t is Some),
        *final(out) == (match t {
            Some(v) => *v,
            None => *old(out),
        }),
{
    match t {
        Some(v) => {
            *out = *v;
            true
        },
        _ => false,
    }
}

/// Stores the two halves of the pair that `tu` holds and tells whether there was one.
pub fn unwrap_into_2<T, U>(tu: Option<(T, U)>, out_t: &mut T, out_u: &mut U) -> (r: bool)
    ensures
        r == (tu is Some),
        *final(out_t) == (match tu {
            Some((t, _)) => t,
            None => *old(out_t),
        }),
        *final(out_u) == (match tu {
            Some((_, u)) => u,
            None => *old(out_u),
        }),
{
    match tu {
        Some((t, u)) => {
            *out_t = t;
            *out_u = u;
            true
        },
        _ => false,
    }
}

} // verus!
