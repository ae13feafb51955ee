use crate::error::ChunkListError;
use crate::layout::{
    each_without, first_match_removal, first_with_room, lands, lemma_each_without,
    lemma_flatten_around, lemma_flatten_contains, lemma_flatten_len_le, lemma_flatten_skip,
    lemma_hint_in_reach, lemma_pack_flatten, lemma_pack_index_offset, lemma_pack_lengths,
    lemma_pack_push, lemma_packed_index, lemma_push_into, lemma_remove_slot,
    lemma_seek_next_segment, lemma_slot_of_index, lemma_update_slot, lemma_with_items_packs,
    offset_of, optimized_capacity, optimized_segments, pack, place_of_insertion, rechunked, seek,
    slot_exists,
    with_item, with_items, with_slot, within_capacity, without_slot, without_value,
};
use crate::order::{all_sorted, lemma_sorted_is_unique, sorted, total_order};
use crate::parallel::{
    chunk_hit, find_in_chunk, par_any, par_find_map_any, par_for_each_mut, par_sort, purge_chunk,
    purged, same,
};
use crate::sizing::optimized_chunk_size;
use vstd::arithmetic::div_mod::lemma_fundamental_div_mod;
use vstd::prelude::*;
use vstd::seq_lib::{to_multiset_build, to_multiset_contains, to_multiset_len};

verus! {

/// A list that keeps its elements in segments ("chunks") of bounded length
/// instead of one contiguous buffer.
///
/// New elements go to the first segment with room. Removals leave the other
/// elements where they are, so segments may hold fewer elements than the
/// chunk size, or none; they are packed anew when the list is sorted or the
/// chunk size shrinks.
#[derive(Debug)]
pub struct ChunkList<T> {
    my_list: Vec<Vec<T>>,
    chunk_size: usize,
}

impl<T> View for ChunkList<T> {
    type V = Seq<T>;

    /// The elements in order: segment after segment, each from its first element to its last.
    open spec fn view(&self) -> Seq<T> {
        self.segments().flatten()
    }
}

impl<T> ChunkList<T> {
    /// The contents of each segment, in segment order.
    pub closed spec fn segments(&self) -> Seq<Seq<T>> {
        self.my_list@.map_values(|chunk: Vec<T>| chunk@)
    }

    /// The chunk size: the number of elements that a segment may hold.
    pub closed spec fn capacity(&self) -> nat {
        self.chunk_size as nat
    }

    /// The invariant of the type: the chunk size is positive, no segment holds
    /// more than it, and the number of elements fits in `usize`.
    pub open spec fn wf(&self) -> bool {
        &&& self.capacity() >= 1
        &&& within_capacity(self.segments(), self.capacity())
        &&& self@.len() <= usize::MAX
    }

    /// The segment and the position in it that a global index resolves to.
    ///
    /// The index is first read as if every segment were full: segment
    /// `index / capacity`, position `index % capacity`. Where that slot holds
    /// no element, the next index is tried, and so on.
    pub open spec fn slot_of(&self, index: int) -> (int, int) {
        let g = seek(self.segments(), self.capacity(), index);
        (g / (self.capacity() as int), g % (self.capacity() as int))
    }

    /// The place in the sequence of elements of the slot that a global index resolves to.
    pub open spec fn place_of(&self, index: int) -> int {
        offset_of(self.segments(), self.slot_of(index).0) + self.slot_of(index).1
    }

    /// What `sort` makes of the list `before`: the same elements, each as
    /// often, packed into segments of the same chunk size, and in ascending
    /// order where the elements are totally ordered.
    pub open spec fn is_sort_of(&self, before: &Self) -> bool where T: Ord {
        &&& self.wf()
        &&& self.capacity() == before.capacity()
        &&& self@.to_multiset() == before@.to_multiset()
        &&& self.segments() == pack(self@, self.capacity())
        &&& total_order::<T>() ==> sorted(self@)
    }
}

impl<T: Ord + Clone + Send + Sync> ChunkList<T> {
    /// An empty list with the given chunk size, which must not be zero.
    pub fn new(chunk_size: usize) -> (r: Result<Self, ChunkListError>)
        ensures
            chunk_size == 0 ==> r == Err::<Self, ChunkListError>(ChunkListError::InvalidCapacity),
            chunk_size >= 1 ==> (r matches Ok(list) && list.wf() && list.capacity() == chunk_size
                && list.segments() == Seq::<Seq<T>>::empty()),
    {
        if chunk_size == 0 {
            return Err(ChunkListError::InvalidCapacity);
        }
        let list = ChunkList { my_list: Vec::new(), chunk_size };
        assert(list.segments() =~= Seq::<Seq<T>>::empty());
        Ok(list)
    }

    /// The chunk size.
    pub fn get_chunk_size(&self) -> (r: usize)
        ensures
            r == self.capacity(),
    {
        self.chunk_size
    }

    /// The number of segments, empty ones included.
    pub fn chunk_amount(&self) -> (r: usize)
        ensures
            r == self.segments().len(),
    {
        self.my_list.len()
    }

    /// The segment with the given index, if there is one.
    pub fn get_chunk(&self, index: usize) -> (r: Option<&Vec<T>>)
        ensures
            index >= self.segments().len() ==> r is None,
            index < self.segments().len() ==> r is Some && r.unwrap()@ == self.segments()[index as int],
    {
        if index < self.my_list.len() {
            Some(&self.my_list[index])
        } else {
            None
        }
    }

    /// The number of elements.
    pub fn len(&self) -> (r: usize)
        requires
            self.wf(),
        ensures
            r == self@.len(),
    {
        let count = self.my_list.len();
        let mut total: usize = 0;
        let mut i: usize = 0;
        while i < count
            invariant
                i <= count,
                count == self.my_list.len(),
                self@.len() <= usize::MAX,
                total == self.segments().take(i as int).flatten().len(),
            decreases count - i,
        {
            proof {
                lemma_flatten_around(self.segments(), i as int);
            }
            total = total + self.my_list[i].len();
            i += 1;
        }
        assert(self.segments().take(count as int) =~= self.segments());
        total
    }

    /// Whether the list holds no element.
    pub fn is_empty(&self) -> (r: bool)
        requires
            self.wf(),
        ensures
            r == (self@.len() == 0),
    {
        self.len() == 0
    }

    /// Adds an element: to the end of the first segment that is not full, or,
    /// where all are full, as the only element of a new last segment.
    pub fn add(&mut self, t: T)
        requires
            old(self).wf(),
            old(self)@.len() < usize::MAX,
        ensures
            final(self).wf(),
            final(self).capacity() == old(self).capacity(),
            final(self).segments() == with_item(old(self).segments(), old(self).capacity(), t),
            final(self)@ == old(self)@.insert(
                place_of_insertion(old(self).segments(), old(self).capacity()),
                t,
            ),
            final(self)@.len() == old(self)@.len() + 1,
            final(self)@.to_multiset() == old(self)@.to_multiset().insert(t),
    {
        let count = self.my_list.len();
        let mut i: usize = 0;
        while i < count
            invariant
                i <= count,
                count == self.my_list.len(),
                *self == *old(self),
                self.wf(),
                self@.len() < usize::MAX,
                first_with_room(self.segments(), self.capacity(), 0) == first_with_room(
                    self.segments(),
                    self.capacity(),
                    i as int,
                ),
            decreases count - i,
        {
            if self.my_list[i].len() < self.chunk_size {
                proof {
                    lemma_push_into(self.segments(), i as int, t);
                }
                self.my_list[i].push(t);
                assert(self.segments() =~= old(self).segments().update(
                    i as int,
                    old(self).segments()[i as int].push(t),
                ));
                return ;
            }
            i += 1;
        }
        let mut chunk: Vec<T> = Vec::new();
        chunk.push(t);
        self.my_list.push(chunk);
        proof {
            old(self).segments().lemma_flatten_push(seq![t]);
            assert(self.segments() =~= old(self).segments().push(seq![t]));
            assert(old(self)@ + seq![t] =~= old(self)@.push(t));
            assert(old(self)@.push(t) =~= old(self)@.insert(old(self)@.len() as int, t));
            to_multiset_build(old(self)@, t);
        }
    }

    /// Adds an element, then picks the chunk size anew by the named policy.
    pub fn add_optimized(&mut self, t: T, optimize_sqrt_size: bool)
        requires
            old(self).wf(),
            old(self)@.len() < usize::MAX,
        ensures
            final(self).wf(),
            final(self).capacity() == optimized_capacity(
                with_item(old(self).segments(), old(self).capacity(), t),
                old(self).capacity(),
                optimize_sqrt_size,
            ),
            final(self).segments() == optimized_segments(
                with_item(old(self).segments(), old(self).capacity(), t),
                old(self).capacity(),
                optimize_sqrt_size,
            ),
            final(self)@ == with_item(old(self).segments(), old(self).capacity(), t).flatten(),
            final(self)@.len() == old(self)@.len() + 1,
            final(self)@.to_multiset() == old(self)@.to_multiset().insert(t),
    {
        self.add(t);
        self.set_chunk_size_optimized(optimize_sqrt_size);
    }

    /// Drops every element and every segment; the chunk size stays.
    pub fn clear(&mut self)
        requires
            old(self).wf(),
        ensures
            final(self).wf(),
            final(self).capacity() == old(self).capacity(),
            final(self).segments() == Seq::<Seq<T>>::empty(),
            final(self)@ == Seq::<T>::empty(),
    {
        self.my_list.clear();
        assert(self.segments() =~= Seq::<Seq<T>>::empty());
    }

    /// A copy of every element, in order.
    pub fn get_list(&self) -> (r: Vec<T>)
        requires
            self.wf(),
        ensures
            r@.len() == self@.len(),
            forall|i: int| 0 <= i < self@.len() ==> cloned(self@[i], #[trigger] r@[i]),
    {
        let mut items: Vec<T> = Vec::with_capacity(self.len());
        let count = self.my_list.len();
        let mut k: usize = 0;
        while k < count
            invariant
                k <= count,
                count == self.my_list.len(),
                items@.len() == self.segments().take(k as int).flatten().len(),
                forall|i: int|
                    0 <= i < items@.len() ==> cloned(
                        self.segments().take(k as int).flatten()[i],
                        #[trigger] items@[i],
                    ),
            decreases count - k,
        {
            proof {
                lemma_flatten_around(self.segments(), k as int);
            }
            items.extend_from_slice(self.my_list[k].as_slice());
            k += 1;
        }
        assert(self.segments().take(count as int) =~= self.segments());
        items
    }

    /// Whether some element equals `t`; the segments are searched in
    /// parallel, and so is each of them.
    pub fn contains(&self, t: &T) -> (r: bool)
        ensures
            total_order::<T>() ==> r == self@.contains(*t),
    {
        let in_chunk = |chunk: &Vec<T>| -> (held: bool)
            ensures
                total_order::<T>() ==> held == chunk@.contains(*t),
            {
                let is_t = |item: &T| -> (equal: bool)
                    ensures
                        total_order::<T>() ==> equal == (*item == *t),
                    { same(item, t) };
                par_any(chunk, is_t)
            };
        let r = par_any(&self.my_list, in_chunk);
        proof {
            lemma_flatten_contains(self.segments(), *t);
            if total_order::<T>() {
                if r {
                    let i = choose|i: int|
                        0 <= i < self.my_list.len() && call_ensures(
                            in_chunk,
                            (&#[trigger] self.my_list[i],),
                            true,
                        );
                    assert(self.segments()[i] == self.my_list[i]@);
                } else {
                    assert forall|i: int| 0 <= i < self.segments().len() implies !(
                    #[trigger] self.segments()[i]).contains(*t) by {
                        assert(self.segments()[i] == self.my_list[i]@);
                    }
                }
            }
        }
        r
    }

    /// Takes the element at position `pos` of segment `seg` out of the list,
    /// if there is one.
    pub fn remove_from_chunk(&mut self, seg: usize, pos: usize) -> (r: Option<T>)
        requires
            old(self).wf(),
        ensures
            final(self).wf(),
            final(self).capacity() == old(self).capacity(),
            !slot_exists(old(self).segments(), seg as int, pos as int) ==> {
                &&& r == None::<T>
                &&& final(self).segments() == old(self).segments()
            },
            slot_exists(old(self).segments(), seg as int, pos as int) ==> {
                &&& r == Some(old(self).segments()[seg as int][pos as int])
                &&& final(self).segments() == without_slot(old(self).segments(), seg as int, pos as int)
                &&& final(self)@ == old(self)@.remove(offset_of(old(self).segments(), seg as int) + pos)
                &&& final(self)@.len() == old(self)@.len() - 1
                &&& final(self)@.to_multiset() == old(self)@.to_multiset().remove(r.unwrap())
            },
    {
        if seg >= self.my_list.len() {
            return None;
        }
        if pos >= self.my_list[seg].len() {
            return None;
        }
        proof {
            lemma_remove_slot(self.segments(), seg as int, pos as int);
        }
        let item = self.my_list[seg].remove(pos);
        assert(self.segments() =~= without_slot(old(self).segments(), seg as int, pos as int));
        Some(item)
    }

    /// Removes one element equal to `t`, found by a binary search of every
    /// segment, all segments searched in parallel.
    ///
    /// The search is only meaningful in sorted segments. Where several
    /// segments hold `t`, which of them loses one is not determined. Whatever
    /// the segments hold, at most one element leaves the list, and no
    /// segment is dropped.
    pub fn remove(&mut self, t: &T)
        requires
            old(self).wf(),
        ensures
            final(self).wf(),
            final(self).capacity() == old(self).capacity(),
            first_match_removal(old(self).segments(), final(self).segments(), *t),
            final(self).segments().len() == old(self).segments().len(),
            final(self)@.len() == old(self)@.len() || final(self)@.len() == old(self)@.len() - 1,
            total_order::<T>() && all_sorted(old(self).segments()) ==> {
                &&& final(self)@.to_multiset() == old(self)@.to_multiset().remove(*t)
                &&& old(self)@.contains(*t) ==> final(self)@.len() == old(self)@.len() - 1
                &&& old(self)@.contains(*t) ==> final(self)@.to_multiset().count(*t)
                    == old(self)@.to_multiset().count(*t) - 1
                &&& !old(self)@.contains(*t) ==> final(self)@ == old(self)@
            },
    {
        let search = |index: usize, chunk: &Vec<T>| -> (hit: Option<(usize, usize)>)
            ensures
                chunk_hit(index as int, chunk@, *t, hit),
            { find_in_chunk(index, chunk, t) };
        let found = par_find_map_any(&self.my_list, search);
        proof {
            lemma_flatten_contains(self.segments(), *t);
        }
        match found {
            Some((seg, pos)) => {
                assert(self.my_list[seg as int]@ == self.segments()[seg as int]);
                proof {
                    if slot_exists(self.segments(), seg as int, pos as int) {
                        lemma_remove_slot(self.segments(), seg as int, pos as int);
                    }
                    if total_order::<T>() && all_sorted(self.segments()) {
                        assert(sorted(self.segments()[seg as int]));
                        assert(self.segments()[seg as int].contains(*t));
                        to_multiset_contains(self@, *t);
                    }
                }
                let _ = self.remove_from_chunk(seg, pos);
            },
            None => {
                proof {
                    if total_order::<T>() && all_sorted(self.segments()) {
                        assert forall|i: int| 0 <= i < self.segments().len() implies !(
                        #[trigger] self.segments()[i]).contains(*t) by {
                            assert(self.my_list[i]@ == self.segments()[i]);
                            assert(sorted(self.segments()[i]));
                        }
                        to_multiset_contains(self@, *t);
                        assert(self@.to_multiset().remove(*t) =~= self@.to_multiset());
                    }
                }
            },
        }
    }

    /// Removes one element equal to `t` as `remove` does, then picks the
    /// chunk size anew by the named policy.
    pub fn remove_optimized(&mut self, t: &T, optimize_sqrt_size: bool)
        requires
            old(self).wf(),
        ensures
            final(self).wf(),
            exists|removed: Seq<Seq<T>>|
                {
                    &&& #[trigger] first_match_removal(old(self).segments(), removed, *t)
                    &&& final(self)@ == removed.flatten()
                    &&& final(self).capacity() == optimized_capacity(
                        removed,
                        old(self).capacity(),
                        optimize_sqrt_size,
                    )
                    &&& final(self).segments() == optimized_segments(
                        removed,
                        old(self).capacity(),
                        optimize_sqrt_size,
                    )
                },
            final(self)@.len() == old(self)@.len() || final(self)@.len() == old(self)@.len() - 1,
            total_order::<T>() && all_sorted(old(self).segments()) ==> {
                &&& final(self)@.to_multiset() == old(self)@.to_multiset().remove(*t)
                &&& old(self)@.contains(*t) ==> final(self)@.len() == old(self)@.len() - 1
                &&& !old(self)@.contains(*t) ==> final(self)@ == old(self)@
            },
    {
        self.remove(t);
        let ghost removed = self.segments();
        self.set_chunk_size_optimized(optimize_sqrt_size);
        assert(first_match_removal(old(self).segments(), removed, *t));
    }

    /// Removes every element equal to `t`, segment by segment, all segments
    /// in parallel. No segment is dropped, and the elements that stay keep
    /// their segment and their order.
    pub fn remove_all(&mut self, t: &T)
        requires
            old(self).wf(),
        ensures
            final(self).wf(),
            final(self).capacity() == old(self).capacity(),
            final(self).segments().len() == old(self).segments().len(),
            final(self)@.len() <= old(self)@.len(),
            total_order::<T>() ==> {
                &&& final(self).segments() == each_without(old(self).segments(), *t)
                &&& final(self)@ == without_value(old(self)@, *t)
                &&& final(self)@.len() == old(self)@.len() - old(self)@.to_multiset().count(*t)
                &&& !final(self)@.contains(*t)
                &&& forall|i: int|
                    0 <= i < final(self).segments().len() ==> !(#[trigger] final(self).segments()[i]).contains(*t)
            },
    {
        let purge = |chunk: &mut Vec<T>|
            ensures
                purged(old(chunk)@, t, final(chunk)@),
            { purge_chunk(chunk, t) };
        par_for_each_mut(&mut self.my_list, purge);
        proof {
            let before = old(self).segments();
            let after = self.segments();
            assert forall|i: int| 0 <= i < before.len() implies purged(
                before[i],
                t,
                #[trigger] after[i],
            ) by {
                assert(self.my_list[i]@ == after[i]);
                assert(old(self).my_list[i]@ == before[i]);
            }
            lemma_flatten_len_le(before, after);
            if total_order::<T>() {
                assert(after =~= each_without(before, *t));
                lemma_each_without(before, *t);
            }
        }
    }

    /// Removes every element equal to `t`, then picks the chunk size anew by
    /// the named policy.
    pub fn remove_all_optimized(&mut self, t: &T, optimize_sqrt_size: bool)
        requires
            old(self).wf(),
        ensures
            final(self).wf(),
            final(self)@.len() <= old(self)@.len(),
            final(self)@.len() == 0 ==> final(self).capacity() == old(self).capacity(),
            final(self)@.len() > 0 ==> final(self).capacity() == crate::sizing::optimized_size(
                final(self)@.len(),
                optimize_sqrt_size,
            ),
            total_order::<T>() ==> {
                &&& final(self)@ == without_value(old(self)@, *t)
                &&& !final(self)@.contains(*t)
                &&& final(self).capacity() == optimized_capacity(
                    each_without(old(self).segments(), *t),
                    old(self).capacity(),
                    optimize_sqrt_size,
                )
                &&& final(self).segments() == optimized_segments(
                    each_without(old(self).segments(), *t),
                    old(self).capacity(),
                    optimize_sqrt_size,
                )
            },
    {
        self.remove_all(t);
        self.set_chunk_size_optimized(optimize_sqrt_size);
    }

    /// Finds the slot that a global index below the number of elements resolves to.
    ///
    /// Within a segment too short for the position, every later position
    /// fails as well, so the search goes on at the start of the next segment.
    fn locate(&self, index: usize) -> (r: (usize, usize))
        requires
            self.wf(),
            index < self@.len(),
        ensures
            (r.0 as int, r.1 as int) == self.slot_of(index as int),
            slot_exists(self.segments(), r.0 as int, r.1 as int),
    {
        let mut seg: usize = index / self.chunk_size;
        let mut pos: usize = index % self.chunk_size;
        proof {
            lemma_hint_in_reach(self.segments(), self.capacity(), index as int);
            lemma_fundamental_div_mod(index as int, self.capacity() as int);
            assert(seg * self.capacity() == self.capacity() * seg) by (nonlinear_arith);
        }
        loop
            invariant
                self.wf(),
                seg < self.my_list.len(),
                pos < self.chunk_size,
                self.segments().skip(seg as int).flatten().len() > pos,
                seek(self.segments(), self.capacity(), index as int) == seek(
                    self.segments(),
                    self.capacity(),
                    seg * self.capacity() + pos,
                ),
            decreases self.my_list.len() - seg,
        {
            if pos < self.my_list[seg].len() {
                proof {
                    lemma_slot_of_index(self.capacity(), seg as int, pos as int);
                    assert(0 <= seg * self.capacity()) by (nonlinear_arith)
                        requires
                            0 <= seg,
                            self.capacity() >= 1,
                    ;
                    assert(lands(self.segments(), self.capacity(), seg * self.capacity() + pos));
                }
                return (seg, pos);
            }
            proof {
                lemma_seek_next_segment(self.segments(), self.capacity(), seg as int, pos as int);
                lemma_flatten_skip(self.segments(), seg as int);
                if seg + 1 == self.my_list.len() {
                    assert(self.segments().skip(seg + 1) =~= Seq::<Seq<T>>::empty());
                }
                assert((seg + 1) * self.capacity() + 0 == (seg + 1) * self.capacity());
            }
            seg = seg + 1;
            pos = 0;
        }
    }

    /// The element that a global index resolves to.
    pub fn get(&self, index: usize) -> (r: Result<&T, ChunkListError>)
        requires
            self.wf(),
        ensures
            index >= self@.len() ==> r == Err::<&T, ChunkListError>(ChunkListError::IndexOutOfRange),
            index < self@.len() ==> {
                let (seg, pos) = self.slot_of(index as int);
                &&& slot_exists(self.segments(), seg, pos)
                &&& r == Ok::<&T, ChunkListError>(&self.segments()[seg][pos])
                &&& 0 <= self.place_of(index as int) < self@.len()
                &&& self.segments()[seg][pos] == self@[self.place_of(index as int)]
            },
    {
        if index >= self.len() {
            return Err(ChunkListError::IndexOutOfRange);
        }
        let (seg, pos) = self.locate(index);
        proof {
            lemma_remove_slot(self.segments(), seg as int, pos as int);
        }
        Ok(&self.my_list[seg][pos])
    }

    /// Puts `t` in place of the element that a global index resolves to.
    pub fn set(&mut self, index: usize, t: T) -> (r: Result<(), ChunkListError>)
        requires
            old(self).wf(),
        ensures
            final(self).wf(),
            final(self).capacity() == old(self).capacity(),
            index >= old(self)@.len() ==> {
                &&& r == Err::<(), ChunkListError>(ChunkListError::IndexOutOfRange)
                &&& final(self).segments() == old(self).segments()
            },
            index < old(self)@.len() ==> {
                let (seg, pos) = old(self).slot_of(index as int);
                &&& r == Ok::<(), ChunkListError>(())
                &&& slot_exists(old(self).segments(), seg, pos)
                &&& final(self).segments() == with_slot(old(self).segments(), seg, pos, t)
                &&& 0 <= old(self).place_of(index as int) < old(self)@.len()
                &&& final(self)@ == old(self)@.update(old(self).place_of(index as int), t)
            },
    {
        if index >= self.len() {
            return Err(ChunkListError::IndexOutOfRange);
        }
        let (seg, pos) = self.locate(index);
        proof {
            lemma_update_slot(self.segments(), seg as int, pos as int, t);
        }
        self.my_list[seg][pos] = t;
        assert(self.segments() =~= with_slot(old(self).segments(), seg as int, pos as int, t));
        Ok(())
    }

    /// Removes the element that a global index resolves to.
    pub fn remove_at(&mut self, index: usize) -> (r: Result<(), ChunkListError>)
        requires
            old(self).wf(),
        ensures
            final(self).wf(),
            final(self).capacity() == old(self).capacity(),
            index >= old(self)@.len() ==> {
                &&& r == Err::<(), ChunkListError>(ChunkListError::IndexOutOfRange)
                &&& final(self).segments() == old(self).segments()
            },
            index < old(self)@.len() ==> {
                let (seg, pos) = old(self).slot_of(index as int);
                &&& r == Ok::<(), ChunkListError>(())
                &&& slot_exists(old(self).segments(), seg, pos)
                &&& final(self).segments() == without_slot(old(self).segments(), seg, pos)
                &&& 0 <= old(self).place_of(index as int) < old(self)@.len()
                &&& final(self)@ == old(self)@.remove(old(self).place_of(index as int))
            },
    {
        if index >= self.len() {
            return Err(ChunkListError::IndexOutOfRange);
        }
        let (seg, pos) = self.locate(index);
        proof {
            lemma_remove_slot(self.segments(), seg as int, pos as int);
        }
        let _ = self.remove_from_chunk(seg, pos);
        Ok(())
    }

    /// Moves every element out, in order, and leaves no segment behind.
    fn take_all(&mut self) -> (items: Vec<T>)
        requires
            old(self).wf(),
        ensures
            items@ == old(self)@,
            final(self).segments() == Seq::<Seq<T>>::empty(),
            final(self).capacity() == old(self).capacity(),
    {
        let mut items: Vec<T> = Vec::new();
        let count = self.my_list.len();
        let mut i: usize = 0;
        while i < count
            invariant
                i <= count,
                count == self.my_list.len(),
                count == old(self).my_list.len(),
                self.chunk_size == old(self).chunk_size,
                items@ == old(self).segments().take(i as int).flatten(),
                forall|j: int| i <= j < count ==> self.my_list[j]@ == old(self).segments()[j],
            decreases count - i,
        {
            proof {
                lemma_flatten_around(old(self).segments(), i as int);
            }
            items.append(&mut self.my_list[i]);
            i += 1;
        }
        self.my_list.clear();
        assert(old(self).segments().take(count as int) =~= old(self).segments());
        assert(self.segments() =~= Seq::<Seq<T>>::empty());
        items
    }

    /// Adds the given elements in order to a list that holds no segment.
    fn refill(&mut self, items: Vec<T>)
        requires
            old(self).capacity() >= 1,
            old(self).segments() == Seq::<Seq<T>>::empty(),
        ensures
            final(self).wf(),
            final(self).capacity() == old(self).capacity(),
            final(self).segments() == pack(items@, old(self).capacity()),
            final(self)@ == items@,
    {
        proof {
            lemma_pack_flatten(Seq::<T>::empty(), self.capacity());
            lemma_pack_lengths(Seq::<T>::empty(), self.capacity());
            assert(pack(Seq::<T>::empty(), self.capacity()) =~= Seq::<Seq<T>>::empty());
            assert(items@.len() == items.len());
        }
        for item in it: items
            invariant
                self.capacity() == old(self).capacity(),
                self.capacity() >= 1,
                self.wf(),
                self.segments() == pack(it.seq().take(it.index()), self.capacity()),
                self@ == it.seq().take(it.index()),
                it.seq() == items@,
                items@.len() <= usize::MAX,
        {
            proof {
                let done = it.seq().take(it.index());
                lemma_pack_push(done, self.capacity(), item);
                lemma_pack_flatten(done.push(item), self.capacity());
                assert(done.push(item) =~= it.seq().take(it.index() + 1));
            }
            self.add(item);
        }
        assert(items@.take(items@.len() as int) =~= items@);
    }

    /// Sets the chunk size, which must not be zero. A size that is no smaller
    /// than before leaves the segments as they are; a smaller one has the
    /// elements packed anew, in order, into segments of that size.
    pub fn set_chunk_size(&mut self, new_chunk_size: usize) -> (r: Result<(), ChunkListError>)
        requires
            old(self).wf(),
        ensures
            final(self).wf(),
            final(self)@ == old(self)@,
            new_chunk_size == 0 ==> {
                &&& r == Err::<(), ChunkListError>(ChunkListError::InvalidCapacity)
                &&& final(self).capacity() == old(self).capacity()
                &&& final(self).segments() == old(self).segments()
            },
            new_chunk_size >= 1 ==> {
                &&& r == Ok::<(), ChunkListError>(())
                &&& final(self).capacity() == new_chunk_size
                &&& final(self).segments() == rechunked(
                    old(self).segments(),
                    old(self).capacity(),
                    new_chunk_size as nat,
                )
            },
    {
        if new_chunk_size == 0 {
            return Err(ChunkListError::InvalidCapacity);
        }
        if new_chunk_size >= self.chunk_size {
            self.chunk_size = new_chunk_size;
            assert(self.segments() == old(self).segments());
        } else {
            let items = self.take_all();
            self.chunk_size = new_chunk_size;
            assert(self.segments() =~= Seq::<Seq<T>>::empty());
            self.refill(items);
        }
        Ok(())
    }

    /// Picks the chunk size by the named policy from the number of elements:
    /// its rounded square root, or five percent of it, and at least 1. An
    /// empty list is left as it is.
    pub fn set_chunk_size_optimized(&mut self, optimize_sqrt_size: bool)
        requires
            old(self).wf(),
        ensures
            final(self).wf(),
            final(self)@ == old(self)@,
            final(self).capacity() == optimized_capacity(
                old(self).segments(),
                old(self).capacity(),
                optimize_sqrt_size,
            ),
            final(self).segments() == optimized_segments(
                old(self).segments(),
                old(self).capacity(),
                optimize_sqrt_size,
            ),
    {
        let total_size = self.len();
        if total_size == 0 {
            return ;
        }
        let new_size = optimized_chunk_size(total_size, optimize_sqrt_size);
        let _ = self.set_chunk_size(new_size);
    }

    /// Sorts the elements: moves them all out, sorts them in parallel, and
    /// packs them, in ascending order, into segments of the chunk size.
    pub fn sort(&mut self)
        requires
            old(self).wf(),
        ensures
            final(self).is_sort_of(old(self)),
            final(self)@.len() == old(self)@.len(),
    {
        let mut items = self.take_all();
        let ghost unsorted = items@;
        par_sort(&mut items);
        proof {
            to_multiset_len(unsorted);
            to_multiset_len(items@);
        }
        self.refill(items);
    }
}

impl<T: Ord + Clone + Send + Sync> Default for ChunkList<T> {
    /// An empty list with a chunk size of 1000.
    fn default() -> (r: Self)
        ensures
            r.wf(),
            r.capacity() == 1000,
            r.segments() == Seq::<Seq<T>>::empty(),
    {
        let list = ChunkList { my_list: Vec::new(), chunk_size: 1000 };
        assert(list.segments() =~= Seq::<Seq<T>>::empty());
        list
    }
}

impl<T: Ord> ChunkList<T> {
    /// A list that is emptied and then given its former elements back, one by
    /// one and in order, holds them in the same order again, packed.
    pub proof fn lemma_round_trip(list: Self)
        requires
            list.wf(),
        ensures
            with_items(Seq::<Seq<T>>::empty(), list.capacity(), list@).flatten() == list@,
            with_items(Seq::<Seq<T>>::empty(), list.capacity(), list@) == pack(list@, list.capacity()),
    {
        lemma_with_items_packs(list@, list.capacity());
        lemma_pack_flatten(list@, list.capacity());
    }

    /// Sorting a second time changes nothing: of totally ordered elements,
    /// what a sort makes of what a sort made is the same list again.
    pub proof fn lemma_sort_idempotent(start: Self, once: Self, twice: Self)
        requires
            total_order::<T>(),
            once.is_sort_of(&start),
            twice.is_sort_of(&once),
        ensures
            twice@ == once@,
            twice.segments() == once.segments(),
    {
        lemma_sorted_is_unique(twice@, once@);
    }

    /// Where the elements lie packed, as after a sort or after the chunk size
    /// shrank, a global index below their number resolves to the element with
    /// that place in the sequence.
    pub proof fn lemma_packed_index_is_place(list: Self, index: int)
        requires
            list.wf(),
            list.segments() == pack(list@, list.capacity()),
            0 <= index < list@.len(),
        ensures
            list.place_of(index) == index,
            list.segments()[list.slot_of(index).0][list.slot_of(index).1] == list@[index],
    {
        lemma_packed_index(list@, list.capacity(), index);
        lemma_remove_slot(list.segments(), list.slot_of(index).0, list.slot_of(index).1);
        let (seg, pos) = list.slot_of(index);
        lemma_pack_index_offset(list@, list.capacity(), seg);
        lemma_fundamental_div_mod(index, list.capacity() as int);
        assert(seg * list.capacity() == list.capacity() * seg) by (nonlinear_arith);
    }
}

} // verus!
