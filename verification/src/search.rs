//! Finding the first index with a property.

use vstd::prelude::*;

verus! {

/// The first index below `n` at which `p` holds.
pub open spec fn first_where(p: spec_fn(int) -> bool, n: int) -> Option<int>
    decreases n,
{
    if n <= 0 {
        None
    } else {
        match first_where(p, n - 1) {
            Some(i) => Some(i),
            None => if p(n - 1) {
                Some(n - 1)
            } else {
                None
            },
        }
    }
}

/// What `first_where` finds is an index at which `p` holds and before which it does not.
pub proof fn first_where_is_first(p: spec_fn(int) -> bool, n: int)
    ensures
        match first_where(p, n) {
            Some(i) => 0 <= i < n && p(i) && forall|j: int| 0 <= j < i ==> !#[trigger] p(j),
            None => forall|j: int| 0 <= j < n ==> !#[trigger] p(j),
        },
    decreases n,
{
    if n > 0 {
        first_where_is_first(p, n - 1);
    }
}

/// An index that was found below `m` is found below every larger bound.
pub proof fn first_where_stays(p: spec_fn(int) -> bool, m: int, n: int)
    requires
        m <= n,
        first_where(p, m) is Some,
    ensures
        first_where(p, n) == first_where(p, m),
    decreases n - m,
{
    if m < n {
        first_where_stays(p, m, n - 1);
    }
}

/// An index with the property, below which nothing has it, is the one that is found.
pub proof fn first_where_is(p: spec_fn(int) -> bool, n: int, i: int)
    requires
        0 <= i < n,
        p(i),
        forall|j: int| 0 <= j < i ==> !#[trigger] p(j),
    ensures
        first_where(p, n) == Some(i),
{
    first_where_is_first(p, n);
    match first_where(p, n) {
        Some(k) => {
            if k < i {
                assert(!p(k));
            }
        },
        None => {
            assert(!p(i));
        },
    }
}

/// Where nothing has the property, nothing is found.
pub proof fn first_where_none(p: spec_fn(int) -> bool, n: int)
    requires
        forall|j: int| 0 <= j < n ==> !#[trigger] p(j),
    ensures
        first_where(p, n) is None,
{
    first_where_is_first(p, n);
}

} // verus!
