use core::cmp::Ordering;
use vstd::prelude::*;
use vstd::std_specs::cmp::{PartialEqSpec, PartialOrdSpec};

verus! {

/// `a` sorts strictly before `b` under the element type's `PartialOrd`.
pub open spec fn lt<T: PartialOrd>(a: T, b: T) -> bool {
    a.partial_cmp_spec(&b) == Some(Ordering::Less)
}

/// `a` sorts strictly after `b` under the element type's `PartialOrd`.
pub open spec fn gt<T: PartialOrd>(a: T, b: T) -> bool {
    a.partial_cmp_spec(&b) == Some(Ordering::Greater)
}

/// What a search tree needs of its element type: the executable `==`, `<`
/// and `>` compute what their spec functions say, `==` is equality of
/// values, and `<` is a strict total order with `>` as its converse.
pub open spec fn total_order<T: PartialOrd>() -> bool {
    &&& T::obeys_eq_spec()
    &&& T::obeys_partial_cmp_spec()
    &&& forall|a: T, b: T| #[trigger] a.eq_spec(&b) <==> a == b
    &&& forall|a: T, b: T|
        #![trigger gt(a, b)]
        #![trigger lt(b, a)]
        gt(a, b) <==> lt(b, a)
    &&& forall|a: T| !#[trigger] lt(a, a)
    &&& forall|a: T, b: T| #[trigger] lt(a, b) || a == b || lt(b, a)
    &&& forall|a: T, b: T, c: T| #[trigger] lt(a, b) && #[trigger] lt(b, c) ==> lt(a, c)
}

/// Every integer type is totally ordered, so a tree of integers meets
/// what the operations ask of the element type.
pub proof fn integers_are_totally_ordered()
    ensures
        total_order::<u8>(),
        total_order::<u16>(),
        total_order::<u32>(),
        total_order::<u64>(),
        total_order::<u128>(),
        total_order::<usize>(),
        total_order::<i8>(),
        total_order::<i16>(),
        total_order::<i32>(),
        total_order::<i64>(),
        total_order::<i128>(),
        total_order::<isize>(),
{
}

/// Each element of `s` sorts strictly before all that come after it.
pub open spec fn strictly_increasing<T: PartialOrd>(s: Seq<T>) -> bool {
    forall|i: int, j: int| 0 <= i < j < s.len() ==> lt(#[trigger] s[i], #[trigger] s[j])
}

} // verus!
