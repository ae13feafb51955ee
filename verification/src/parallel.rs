use crate::layout::without_value;
use crate::order::{lemma_total_order, precedes, sorted, total_order};
use rayon::iter::{
    IndexedParallelIterator, IntoParallelRefIterator, IntoParallelRefMutIterator, ParallelIterator,
};
use rayon::slice::ParallelSliceMut;
use vstd::prelude::*;
use vstd::std_specs::cmp::PartialEqSpec;

verus! {

/// Whether two elements are equal, as `==` of `T` has it.
pub fn same<T: Ord>(a: &T, b: &T) -> (r: bool)
    ensures
        T::obeys_eq_spec() ==> r == a.eq_spec(b),
        total_order::<T>() ==> r == (*a == *b),
{
    proof {
        if total_order::<T>() {
            lemma_total_order::<T>();
        }
    }
    a == b
}

/// Whether two elements differ, as `!=` of `T` has it.
pub fn differs<T: Ord>(a: &T, b: &T) -> (r: bool)
    ensures
        T::obeys_eq_spec() ==> r == !a.eq_spec(b),
        total_order::<T>() ==> r == (*a != *b),
{
    proof {
        if total_order::<T>() {
            lemma_total_order::<T>();
        }
    }
    a != b
}

/// What a search of one segment for `t` may answer. A hit names the segment
/// by the index it was given. In a sorted segment of totally ordered
/// elements a hit is a position that holds `t`, and no hit means that `t` is
/// not there.
pub open spec fn chunk_hit<T: Ord>(index: int, chunk: Seq<T>, t: T, r: Option<(usize, usize)>) -> bool {
    &&& (r matches Some(hit) ==> hit.0 == index)
    &&& total_order::<T>() && sorted(chunk) ==> match r {
        Some(hit) => hit.1 < chunk.len() && chunk[hit.1 as int] == t,
        None => !chunk.contains(t),
    }
}

/// What is left of one segment when `t` is taken out of it: never more than
/// before, and, for totally ordered elements, the elements other than `t` in
/// their order.
pub open spec fn purged<T: Ord>(before: Seq<T>, t: &T, after: Seq<T>) -> bool {
    &&& after.len() <= before.len()
    &&& total_order::<T>() ==> after == without_value(before, *t)
}

/// Calls `binary_search` of the slice that `chunk` holds.
///
/// Trusted, not proved: std documents that on a sorted slice the answer is
/// `Ok` with the index of an element equal to `t` where there is one, and
/// else `Err` with the index at which `t` could be inserted to keep the
/// slice sorted. Of an unsorted slice std promises nothing, and nothing is
/// claimed here.
#[verifier::external_body]
fn binary_search<T: Ord>(chunk: &Vec<T>, t: &T) -> (r: Result<usize, usize>)
    ensures
        total_order::<T>() && sorted(chunk@) ==> match r {
            Ok(pos) => pos < chunk.len() && chunk[pos as int] == *t,
            Err(pos) => {
                &&& pos <= chunk.len()
                &&& !chunk@.contains(*t)
                &&& forall|i: int| 0 <= i < pos ==> precedes(#[trigger] chunk[i], *t)
                &&& forall|i: int| pos <= i < chunk.len() ==> precedes(*t, #[trigger] chunk[i])
            },
        },
{
    chunk.binary_search(t)
}

/// Searches the segment with index `index` for `t` by binary search.
pub fn find_in_chunk<T: Ord>(index: usize, chunk: &Vec<T>, t: &T) -> (r: Option<(usize, usize)>)
    ensures
        chunk_hit(index as int, chunk@, *t, r),
{
    match binary_search(chunk, t) {
        Ok(pos) => Some((index, pos)),
        Err(_) => None,
    }
}

/// Calls rayon's `find_map_any` on the items, each paired with its index by
/// `enumerate`, with `op` as the operation.
///
/// Trusted, not proved: rayon documents that `find_map_any` returns some
/// result of the operation that is not `None`, whichever worker comes first,
/// and `None` only where the operation gave `None` for every item. So what
/// comes back is what `op` answered for some item, and without a result it
/// answered `None` for each.
#[verifier::external_body]
pub(crate) fn par_find_map_any<A: Sync, R: Send, P: Fn(usize, &A) -> Option<R> + Sync + Send>(
    items: &Vec<A>,
    op: P,
) -> (r: Option<R>)
    requires
        forall|i: int|
            0 <= i < items.len() ==> call_requires(op, (i as usize, &#[trigger] items[i])),
    ensures
        r is Some ==> exists|i: int|
            0 <= i < items.len() && call_ensures(op, (i as usize, &#[trigger] items[i]), r),
        r is None ==> forall|i: int|
            0 <= i < items.len() ==> call_ensures(op, (i as usize, &#[trigger] items[i]), r),
{
    items.par_iter().enumerate().find_map_any(|(i, item)| op(i, item))
}

/// Calls `Vec::retain` with `keep` as the test.
///
/// Trusted, not proved: std documents that `retain` keeps exactly the
/// elements for which the test holds, in their order. So no element is
/// added, and where the test always answers as a function `f` of the element
/// does, what stays is the elements for which `f` holds.
#[verifier::external_body]
fn retain<T, P: Fn(&T) -> bool>(chunk: &mut Vec<T>, keep: P)
    requires
        forall|i: int| 0 <= i < old(chunk).len() ==> call_requires(keep, (&#[trigger] old(chunk)[i],)),
    ensures
        final(chunk).len() <= old(chunk).len(),
        forall|f: spec_fn(T) -> bool|
            (forall|x: T, kept: bool| #[trigger] call_ensures(keep, (&x,), kept) ==> kept == f(x))
                ==> final(chunk)@ == #[trigger] old(chunk)@.filter(f),
{
    chunk.retain(keep);
}

/// Takes every element equal to `t` out of one segment.
pub fn purge_chunk<T: Ord>(chunk: &mut Vec<T>, t: &T)
    ensures
        purged(old(chunk)@, t, final(chunk)@),
{
    let keep = |x: &T| -> (kept: bool)
        ensures
            total_order::<T>() ==> kept == (*x != *t),
        { differs(x, t) };
    retain(chunk, keep);
    proof {
        if total_order::<T>() {
            let f = |x: T| x != *t;
            assert(forall|x: T, kept: bool| #[trigger]
                call_ensures(keep, (&x,), kept) ==> kept == f(x));
            assert(chunk@ == old(chunk)@.filter(f));
        }
    }
}

/// Calls rayon's `for_each` on the items, each borrowed mutably by
/// `par_iter_mut`, with `op` as the operation.
///
/// Trusted, not proved: rayon documents that `for_each` runs the operation
/// on each item. So the items stay as many, and each is afterwards what one
/// call of `op` made of it.
#[verifier::external_body]
pub(crate) fn par_for_each_mut<A: Send, P: Fn(&mut A) + Sync + Send>(items: &mut Vec<A>, op: P)
    requires
        forall|i: int, x: &mut A|
            #![trigger old(items)[i], call_requires(op, (x,))]
            0 <= i < old(items).len() && *x == old(items)[i] ==> call_requires(op, (x,)),
    ensures
        final(items).len() == old(items).len(),
        forall|i: int|
            0 <= i < old(items).len() ==> exists|x: &mut A|
                *x == old(items)[i] && *final(x) == #[trigger] final(items)[i] && call_ensures(
                    op,
                    (x,),
                    (),
                ),
{
    items.par_iter_mut().for_each(op)
}

/// Calls rayon's `any` on the items, with `test` as the test.
///
/// Trusted, not proved: rayon documents that `any` is true where the test
/// holds for some item, and that it is false only after the test failed for
/// every item.
#[verifier::external_body]
pub(crate) fn par_any<A: Sync, P: Fn(&A) -> bool + Sync + Send>(items: &Vec<A>, test: P) -> (r: bool)
    requires
        forall|i: int| 0 <= i < items.len() ==> call_requires(test, (&#[trigger] items[i],)),
    ensures
        r ==> exists|i: int|
            0 <= i < items.len() && call_ensures(test, (&#[trigger] items[i],), true),
        !r ==> forall|i: int|
            0 <= i < items.len() ==> call_ensures(test, (&#[trigger] items[i],), false),
{
    items.par_iter().any(test)
}

/// Calls rayon's `par_sort` on the slice that `items` holds.
///
/// Trusted, not proved: rayon documents that `par_sort` sorts the slice, by
/// the order of `T`. It moves elements and neither drops nor copies any.
#[verifier::external_body]
pub(crate) fn par_sort<T: Ord + Send>(items: &mut Vec<T>)
    ensures
        final(items)@.to_multiset() == old(items)@.to_multiset(),
        total_order::<T>() ==> sorted(final(items)@),
{
    items.par_sort();
}

} // verus!
