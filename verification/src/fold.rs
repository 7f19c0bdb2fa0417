//! Walks over a list: what they gather and where they stop.

use vstd::prelude::*;

verus! {

/// The parts that positions `0` to `n` contribute, one after the other.
pub open spec fn gathered<B>(n: nat, part: spec_fn(int) -> Seq<B>) -> Seq<B>
    decreases n,
{
    if n == 0 {
        Seq::empty()
    } else {
        gathered((n - 1) as nat, part) + part(n - 1)
    }
}

/// The error of the first of the positions `0` to `n` that has one.
pub open spec fn first_error<E>(n: nat, check: spec_fn(int) -> Option<E>) -> Option<E>
    decreases n,
{
    if n == 0 {
        None
    } else {
        match first_error((n - 1) as nat, check) {
            Some(error) => Some(error),
            None => check(n - 1),
        }
    }
}

/// A walk over positions without an error has none.
pub proof fn lemma_no_error<E>(n: nat, check: spec_fn(int) -> Option<E>)
    requires
        forall|i: int| 0 <= i < n ==> (#[trigger] check(i)) is None,
    ensures
        first_error(n, check) is None,
    decreases n,
{
    if n > 0 {
        lemma_no_error((n - 1) as nat, check);
    }
}

/// The first position with an error decides.
pub proof fn lemma_error_at<E>(n: nat, check: spec_fn(int) -> Option<E>, at: int)
    requires
        0 <= at < n,
        forall|i: int| 0 <= i < at ==> (#[trigger] check(i)) is None,
        check(at) is Some,
    ensures
        first_error(n, check) == check(at),
    decreases n,
{
    if at == n - 1 {
        lemma_no_error((n - 1) as nat, check);
    } else {
        lemma_error_at((n - 1) as nat, check, at);
    }
}

/// Where a walk has no error, no position has.
pub proof fn lemma_all_pass<E>(n: nat, check: spec_fn(int) -> Option<E>, at: int)
    requires
        first_error(n, check) is None,
        0 <= at < n,
    ensures
        check(at) is None,
    decreases n,
{
    if at < n - 1 {
        lemma_all_pass((n - 1) as nat, check, at);
    }
}

/// What a walk gathers comes from one of its positions.
pub proof fn lemma_gathered_from<B>(n: nat, part: spec_fn(int) -> Seq<B>, value: B) -> (at: int)
    requires
        gathered(n, part).contains(value),
    ensures
        0 <= at < n,
        part(at).contains(value),
    decreases n,
{
    let (a, b) = (gathered((n - 1) as nat, part), part(n - 1));
    let i = choose|i: int| 0 <= i < gathered(n, part).len() && gathered(n, part)[i] == value;
    if i < a.len() {
        assert(a[i] == value);
        lemma_gathered_from((n - 1) as nat, part, value)
    } else {
        assert(b[i - a.len()] == value);
        n - 1
    }
}

/// What one of the positions contributes is gathered.
pub proof fn lemma_gathered_holds<B>(n: nat, part: spec_fn(int) -> Seq<B>, at: int, value: B)
    requires
        0 <= at < n,
        part(at).contains(value),
    ensures
        gathered(n, part).contains(value),
    decreases n,
{
    let (all, a, b) = (gathered(n, part), gathered((n - 1) as nat, part), part(n - 1));
    if at < n - 1 {
        lemma_gathered_holds((n - 1) as nat, part, at, value);
        let i = choose|i: int| 0 <= i < a.len() && a[i] == value;
        assert(all[i] == value);
    } else {
        let i = choose|i: int| 0 <= i < b.len() && b[i] == value;
        assert(all[a.len() + i] == value);
    }
}

/// What a filter leaves was there.
pub proof fn lemma_filter_from<B>(list: Seq<B>, pred: spec_fn(B) -> bool, i: int)
    requires
        0 <= i < list.filter(pred).len(),
    ensures
        list.contains(list.filter(pred)[i]),
    decreases list.len(),
{
    reveal(Seq::filter);
    if list.len() > 0 {
        let rest = list.drop_last();
        if i < rest.filter(pred).len() {
            lemma_filter_from(rest, pred, i);
            let j = choose|j: int| 0 <= j < rest.len() && rest[j] == rest.filter(pred)[i];
            assert(list[j] == list.filter(pred)[i]);
        } else {
            assert(list[list.len() - 1] == list.filter(pred)[i]);
        }
    }
}

} // verus!
