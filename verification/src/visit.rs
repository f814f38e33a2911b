use vstd::prelude::*;

verus! {

/// The plain form of a traversal's callback: a function that is handed
/// the value at a node. What it gives back is dropped.
pub type Callback<T> = fn(Option<T>) -> Option<T>;

/// `callback`, where one is set, may be called on every value in `values`.
pub open spec fn accepts_all<T, F: Fn(Option<T>) -> Option<T>>(
    callback: Option<F>,
    values: Set<T>,
) -> bool {
    callback matches Some(call) ==> forall|x: T| #[trigger]
        values.contains(x) ==> call_requires(call, (Some(x),))
}

/// `returned` is what came back as `callback` was called once on each
/// value of `items`, first to last. With no callback set nothing is
/// called and nothing comes back.
pub open spec fn handed_each<T, F: Fn(Option<T>) -> Option<T>>(
    callback: Option<F>,
    items: Seq<T>,
    returned: Seq<Option<T>>,
) -> bool {
    match callback {
        None => returned.len() == 0,
        Some(call) => {
            &&& returned.len() == items.len()
            &&& forall|i: int|
                0 <= i < items.len() ==> call_ensures(
                    call,
                    (Some(items[i]),),
                    #[trigger] returned[i],
                )
        },
    }
}

/// A callback that may be called on every value of a set may be called
/// on every value of a part of it.
pub proof fn lemma_accepts_part<T, F: Fn(Option<T>) -> Option<T>>(
    callback: Option<F>,
    values: Set<T>,
    part: Set<T>,
)
    requires
        accepts_all(callback, values),
        part.subset_of(values),
    ensures
        accepts_all(callback, part),
{
    if let Some(call) = callback {
        assert forall|x: T| #[trigger] part.contains(x) implies call_requires(call, (Some(x),)) by {
            assert(values.contains(x));
        }
    }
}

/// Calls made on `first` and then on `second` are calls made on the two
/// in a row.
pub proof fn lemma_handed_each_in_a_row<T, F: Fn(Option<T>) -> Option<T>>(
    callback: Option<F>,
    first: Seq<T>,
    first_returned: Seq<Option<T>>,
    second: Seq<T>,
    second_returned: Seq<Option<T>>,
)
    requires
        handed_each(callback, first, first_returned),
        handed_each(callback, second, second_returned),
    ensures
        handed_each(callback, first + second, first_returned + second_returned),
{
    if let Some(call) = callback {
        let items = first + second;
        let returned = first_returned + second_returned;
        assert forall|i: int| 0 <= i < items.len() implies call_ensures(
            call,
            (Some(items[i]),),
            #[trigger] returned[i],
        ) by {
            if i < first.len() {
                assert(items[i] == first[i] && returned[i] == first_returned[i]);
            } else {
                assert(items[i] == second[i - first.len()]);
                assert(returned[i] == second_returned[i - first.len()]);
            }
        }
    }
}

} // verus!
