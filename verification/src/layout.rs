use vstd::arithmetic::div_mod::{lemma_fundamental_div_mod, lemma_fundamental_div_mod_converse};
use crate::order::{all_sorted, total_order};
use crate::sizing::optimized_size;
use vstd::prelude::*;
use vstd::seq_lib::{lemma_flatten_concat, to_multiset_build, to_multiset_insert, to_multiset_remove};

verus! {

/// Whether every segment holds at most `cap` elements.
pub open spec fn within_capacity<T>(segments: Seq<Seq<T>>, cap: nat) -> bool {
    forall|i: int| 0 <= i < segments.len() ==> (#[trigger] segments[i]).len() <= cap
}

/// The index of the first segment at or after `from` that holds fewer than
/// `cap` elements, or the number of segments where there is none.
pub open spec fn first_with_room<T>(segments: Seq<Seq<T>>, cap: nat, from: int) -> int
    decreases segments.len() - from,
{
    if from < 0 || from >= segments.len() {
        segments.len() as int
    } else if segments[from].len() < cap {
        from
    } else {
        first_with_room(segments, cap, from + 1)
    }
}

/// The segments after one insertion: the item goes to the end of the first
/// segment that has room, and into a new last segment where none has.
pub open spec fn with_item<T>(segments: Seq<Seq<T>>, cap: nat, item: T) -> Seq<Seq<T>> {
    let k = first_with_room(segments, cap, 0);
    if k < segments.len() {
        segments.update(k, segments[k].push(item))
    } else {
        segments.push(seq![item])
    }
}

/// The place in the sequence of elements at which an inserted item comes to
/// lie: behind the last element of the first segment with room, and at the
/// very end where no segment has room.
pub open spec fn place_of_insertion<T>(segments: Seq<Seq<T>>, cap: nat) -> int {
    let k = first_with_room(segments, cap, 0);
    if k < segments.len() {
        offset_of(segments, k) + segments[k].len()
    } else {
        segments.flatten().len() as int
    }
}

/// The segments after inserting each of `items` in turn.
pub open spec fn with_items<T>(segments: Seq<Seq<T>>, cap: nat, items: Seq<T>) -> Seq<Seq<T>>
    decreases items.len(),
{
    if items.len() == 0 {
        segments
    } else {
        with_item(with_items(segments, cap, items.drop_last()), cap, items.last())
    }
}

/// How many segments of `cap` elements it takes to hold `n` elements.
pub open spec fn segments_needed(n: nat, cap: nat) -> nat {
    if cap == 0 {
        0
    } else {
        ((n + cap - 1) / (cap as int)) as nat
    }
}

/// `items` cut into consecutive segments of `cap` elements each, the last one
/// holding what is left.
pub open spec fn pack<T>(items: Seq<T>, cap: nat) -> Seq<Seq<T>> {
    Seq::new(
        segments_needed(items.len(), cap),
        |i: int| items.subrange(i * cap, if (i + 1) * cap <= items.len() { (i + 1) * cap } else { items.len() as int }),
    )
}

/// The number of elements in the segments before segment `seg`.
pub open spec fn offset_of<T>(segments: Seq<Seq<T>>, seg: int) -> int {
    segments.take(seg).flatten().len() as int
}

/// The segments after the chunk size changes from `cap` to `new_cap`: left as
/// they are where it does not shrink, packed anew where it does.
pub open spec fn rechunked<T>(segments: Seq<Seq<T>>, cap: nat, new_cap: nat) -> Seq<Seq<T>> {
    if new_cap >= cap {
        segments
    } else {
        pack(segments.flatten(), new_cap)
    }
}

/// The elements of `s` other than `t`, in their order.
pub open spec fn without_value<T>(s: Seq<T>, t: T) -> Seq<T> {
    s.filter(|x: T| x != t)
}

/// Every segment without its elements equal to `t`.
pub open spec fn each_without<T>(segments: Seq<Seq<T>>, t: T) -> Seq<Seq<T>> {
    Seq::new(segments.len(), |i: int| without_value(segments[i], t))
}

/// The chunk size after the named policy is applied to these segments: the
/// one before where they hold no element, else the size that the policy
/// picks for the number of elements.
pub open spec fn optimized_capacity<T>(segments: Seq<Seq<T>>, cap: nat, by_sqrt: bool) -> nat {
    if segments.flatten().len() == 0 {
        cap
    } else {
        optimized_size(segments.flatten().len(), by_sqrt)
    }
}

/// The segments after the named policy is applied to them.
pub open spec fn optimized_segments<T>(segments: Seq<Seq<T>>, cap: nat, by_sqrt: bool) -> Seq<
    Seq<T>,
> {
    rechunked(segments, cap, optimized_capacity(segments, cap, by_sqrt))
}

/// Whether position `pos` of segment `seg` holds an element.
pub open spec fn slot_exists<T>(segments: Seq<Seq<T>>, seg: int, pos: int) -> bool {
    0 <= seg < segments.len() && 0 <= pos < segments[seg].len()
}

/// The segments without the element at position `pos` of segment `seg`.
pub open spec fn without_slot<T>(segments: Seq<Seq<T>>, seg: int, pos: int) -> Seq<Seq<T>> {
    segments.update(seg, segments[seg].remove(pos))
}

/// Whether `after` is `before` without one of its elements.
pub open spec fn lost_one<T>(before: Seq<Seq<T>>, after: Seq<Seq<T>>) -> bool {
    exists|seg: int, pos: int|
        slot_exists(before, seg, pos) && after == #[trigger] without_slot(before, seg, pos)
}

/// Whether `after` is `before` without one of its elements equal to `t`.
pub open spec fn lost_one_of<T>(before: Seq<Seq<T>>, after: Seq<Seq<T>>, t: T) -> bool {
    exists|seg: int, pos: int|
        slot_exists(before, seg, pos) && before[seg][pos] == t && after == #[trigger] without_slot(
            before,
            seg,
            pos,
        )
}

/// What the removal of one element equal to `t`, searched for by binary
/// search in every segment, may make of the segments `before`.
///
/// Whatever the segments hold, at most one element is gone. Where the
/// elements are totally ordered and every segment is sorted, one element
/// equal to `t` is gone if there was one, from whichever segment, and none
/// is gone if there was none.
pub open spec fn first_match_removal<T: Ord>(before: Seq<Seq<T>>, after: Seq<Seq<T>>, t: T) -> bool {
    &&& after == before || lost_one(before, after)
    &&& total_order::<T>() && all_sorted(before) ==> if before.flatten().contains(t) {
        lost_one_of(before, after, t)
    } else {
        after == before
    }
}

/// The segments with `item` in place of the element at position `pos` of segment `seg`.
pub open spec fn with_slot<T>(segments: Seq<Seq<T>>, seg: int, pos: int, item: T) -> Seq<Seq<T>> {
    segments.update(seg, segments[seg].update(pos, item))
}

/// Whether global index `g`, read as segment `g / cap` and position
/// `g % cap`, lands on an element.
pub open spec fn lands<T>(segments: Seq<Seq<T>>, cap: nat, g: int) -> bool {
    cap > 0 && 0 <= g && slot_exists(segments, g / (cap as int), g % (cap as int))
}

/// The first global index at or after `g` that lands on an element. Where no
/// index from `g` on does, the result is an index beyond all segments.
pub open spec fn seek<T>(segments: Seq<Seq<T>>, cap: nat, g: int) -> int
    decreases segments.len() * cap - g,
{
    if cap == 0 || g < 0 || g >= segments.len() * cap || lands(segments, cap, g) {
        g
    } else {
        seek(segments, cap, g + 1)
    }
}

/// The elements are those of the first `i` segments followed by those of the rest.
pub proof fn lemma_flatten_split<T>(segments: Seq<Seq<T>>, i: int)
    requires
        0 <= i <= segments.len(),
    ensures
        segments.flatten() == segments.take(i).flatten() + segments.skip(i).flatten(),
{
    assert(segments =~= segments.take(i) + segments.skip(i));
    lemma_flatten_concat(segments.take(i), segments.skip(i));
}

/// The elements are those before segment `i`, then segment `i`, then those behind it.
pub proof fn lemma_flatten_around<T>(segments: Seq<Seq<T>>, i: int)
    requires
        0 <= i < segments.len(),
    ensures
        segments.flatten() == segments.take(i).flatten() + segments[i] + segments.skip(i + 1).flatten(),
        segments.take(i + 1).flatten() == segments.take(i).flatten() + segments[i],
{
    lemma_flatten_split(segments, i);
    let rest = segments.skip(i);
    assert(rest.first() == segments[i]);
    assert(rest.drop_first() =~= segments.skip(i + 1));
    assert(segments.flatten() =~= segments.take(i).flatten() + segments[i] + segments.skip(
        i + 1,
    ).flatten());
    assert(segments.take(i + 1) =~= segments.take(i).push(segments[i]));
    segments.take(i).lemma_flatten_push(segments[i]);
}

/// Replacing segment `i` replaces its stretch of the elements.
pub proof fn lemma_flatten_update<T>(segments: Seq<Seq<T>>, i: int, chunk: Seq<T>)
    requires
        0 <= i < segments.len(),
    ensures
        segments.update(i, chunk).flatten() == segments.take(i).flatten() + chunk + segments.skip(
            i + 1,
        ).flatten(),
{
    let updated = segments.update(i, chunk);
    lemma_flatten_around(updated, i);
    assert(updated.take(i) =~= segments.take(i));
    assert(updated.skip(i + 1) =~= segments.skip(i + 1));
}

/// An element pushed onto segment `i` is inserted into the elements just behind that segment's last.
pub proof fn lemma_push_into<T>(segments: Seq<Seq<T>>, i: int, item: T)
    requires
        0 <= i < segments.len(),
    ensures
        segments.update(i, segments[i].push(item)).flatten() == segments.flatten().insert(
            offset_of(segments, i) + segments[i].len(),
            item,
        ),
        segments.update(i, segments[i].push(item)).flatten().to_multiset()
            == segments.flatten().to_multiset().insert(item),
        offset_of(segments, i) + segments[i].len() <= segments.flatten().len(),
{
    lemma_flatten_around(segments, i);
    lemma_flatten_update(segments, i, segments[i].push(item));
    let at = offset_of(segments, i) + segments[i].len();
    assert(segments.update(i, segments[i].push(item)).flatten() =~= segments.flatten().insert(
        at,
        item,
    ));
    to_multiset_insert(segments.flatten(), at, item);
}

/// Removing a slot removes the element at its place in the sequence.
pub proof fn lemma_remove_slot<T>(segments: Seq<Seq<T>>, seg: int, pos: int)
    requires
        slot_exists(segments, seg, pos),
    ensures
        offset_of(segments, seg) + pos < segments.flatten().len(),
        segments.flatten()[offset_of(segments, seg) + pos] == segments[seg][pos],
        without_slot(segments, seg, pos).flatten() == segments.flatten().remove(
            offset_of(segments, seg) + pos,
        ),
        without_slot(segments, seg, pos).flatten().to_multiset()
            == segments.flatten().to_multiset().remove(segments[seg][pos]),
{
    lemma_flatten_around(segments, seg);
    lemma_flatten_update(segments, seg, segments[seg].remove(pos));
    let at = offset_of(segments, seg) + pos;
    assert(without_slot(segments, seg, pos).flatten() =~= segments.flatten().remove(at));
    to_multiset_remove(segments.flatten(), at);
}

/// Overwriting a slot overwrites the element at its place in the sequence.
pub proof fn lemma_update_slot<T>(segments: Seq<Seq<T>>, seg: int, pos: int, item: T)
    requires
        slot_exists(segments, seg, pos),
    ensures
        offset_of(segments, seg) + pos < segments.flatten().len(),
        segments.flatten()[offset_of(segments, seg) + pos] == segments[seg][pos],
        with_slot(segments, seg, pos, item).flatten() == segments.flatten().update(
            offset_of(segments, seg) + pos,
            item,
        ),
{
    lemma_flatten_around(segments, seg);
    lemma_flatten_update(segments, seg, segments[seg].update(pos, item));
    let at = offset_of(segments, seg) + pos;
    assert(with_slot(segments, seg, pos, item).flatten() =~= segments.flatten().update(at, item));
}

/// Where the segments from `from` up to `k` are full and segment `k`, if there
/// is one, is not, `k` is the first segment with room.
pub proof fn lemma_first_with_room<T>(segments: Seq<Seq<T>>, cap: nat, from: int, k: int)
    requires
        0 <= from <= k <= segments.len(),
        forall|i: int| from <= i < k ==> (#[trigger] segments[i]).len() >= cap,
        k < segments.len() ==> segments[k].len() < cap,
    ensures
        first_with_room(segments, cap, from) == k,
    decreases k - from,
{
    if from < k {
        lemma_first_with_room(segments, cap, from + 1, k);
    }
}

/// What the first segment with room is: no segment from `from` up to it has
/// room, and it has, if it is a segment at all.
pub proof fn lemma_first_with_room_is<T>(segments: Seq<Seq<T>>, cap: nat, from: int)
    requires
        0 <= from <= segments.len(),
    ensures
        from <= first_with_room(segments, cap, from) <= segments.len(),
        forall|i: int|
            from <= i < first_with_room(segments, cap, from) ==> (#[trigger] segments[i]).len() >= cap,
        first_with_room(segments, cap, from) < segments.len() ==> segments[first_with_room(
            segments,
            cap,
            from,
        )].len() < cap,
    decreases segments.len() - from,
{
    if from < segments.len() && segments[from].len() >= cap {
        lemma_first_with_room_is(segments, cap, from + 1);
    }
}

/// The number of segments needed is the least whose capacity reaches `n`.
pub proof fn lemma_segments_needed(n: nat, cap: nat)
    requires
        cap >= 1,
    ensures
        n == 0 <==> segments_needed(n, cap) == 0,
        (segments_needed(n, cap) - 1) * cap < n <= segments_needed(n, cap) * cap,
{
    let m = segments_needed(n, cap) as int;
    lemma_fundamental_div_mod(n + cap - 1, cap as int);
    assert(m * cap == cap * m) by (nonlinear_arith);
    assert((m - 1) * cap == m * cap - cap) by (nonlinear_arith);
    if m == 0 {
        assert(m * cap == 0);
    }
}

/// Only one number of segments has its capacity reach `n` and no less.
pub proof fn lemma_segments_needed_is(n: nat, cap: nat, m: int)
    requires
        cap >= 1,
        (m - 1) * cap < n <= m * cap,
    ensures
        segments_needed(n, cap) == m,
{
    let k = segments_needed(n, cap) as int;
    lemma_segments_needed(n, cap);
    assert(k == m) by (nonlinear_arith)
        requires
            cap >= 1,
            (m - 1) * cap < n <= m * cap,
            (k - 1) * cap < n <= k * cap,
    {
        if k < m {
            assert(k * cap <= (m - 1) * cap);
        } else if m < k {
            assert(m * cap <= (k - 1) * cap);
        }
    }
}

/// The bounds of segment `i` of a packing of `n` elements.
pub proof fn lemma_pack_bounds(n: nat, cap: nat, i: int)
    requires
        cap >= 1,
        0 <= i < segments_needed(n, cap),
    ensures
        0 <= i * cap < n,
        i + 1 < segments_needed(n, cap) ==> (i + 1) * cap < n,
        i + 1 == segments_needed(n, cap) ==> n <= (i + 1) * cap,
        (i + 1) * cap == i * cap + cap,
{
    let m = segments_needed(n, cap) as int;
    lemma_segments_needed(n, cap);
    assert(0 <= i * cap && i * cap <= (m - 1) * cap) by (nonlinear_arith)
        requires
            0 <= i <= m - 1,
            cap >= 1,
    ;
    assert((i + 1) * cap == i * cap + cap) by (nonlinear_arith);
    if i + 1 < m {
        assert((i + 1) * cap <= (m - 1) * cap) by (nonlinear_arith)
            requires
                i + 1 <= m - 1,
                cap >= 1,
        ;
    }
}

/// A packing holds at most `cap` elements in each segment, and exactly `cap` in all but the last.
pub proof fn lemma_pack_lengths<T>(items: Seq<T>, cap: nat)
    requires
        cap >= 1,
    ensures
        pack(items, cap).len() == segments_needed(items.len(), cap),
        within_capacity(pack(items, cap), cap),
        forall|i: int|
            0 <= i < pack(items, cap).len() - 1 ==> (#[trigger] pack(items, cap)[i]).len() == cap,
        forall|i: int| 0 <= i < pack(items, cap).len() ==> (#[trigger] pack(items, cap)[i]).len() >= 1,
{
    let packed = pack(items, cap);
    assert forall|i: int| 0 <= i < packed.len() implies 1 <= (#[trigger] packed[i]).len() <= cap && (i
        < packed.len() - 1 ==> packed[i].len() == cap) by {
        lemma_pack_bounds(items.len(), cap, i);
    }
}

/// Inserting one more element into a packing gives the packing of the longer sequence.
pub proof fn lemma_pack_push<T>(items: Seq<T>, cap: nat, item: T)
    requires
        cap >= 1,
    ensures
        with_item(pack(items, cap), cap, item) == pack(items.push(item), cap),
{
    let n = items.len();
    let m = segments_needed(n, cap) as int;
    let packed = pack(items, cap);
    let longer = items.push(item);
    lemma_segments_needed(n, cap);
    lemma_pack_lengths(items, cap);
    assert(m * cap + cap == (m + 1) * cap) by (nonlinear_arith);
    if n == m * cap {
        if m >= 1 {
            lemma_pack_bounds(n, cap, m - 1);
            assert(packed[m - 1].len() == cap);
        }
        lemma_first_with_room(packed, cap, 0, m);
        lemma_segments_needed_is(n + 1, cap, m + 1);
        let after = packed.push(seq![item]);
        assert(after.len() == pack(longer, cap).len());
        assert forall|i: int| 0 <= i < after.len() implies after[i] =~= pack(longer, cap)[i] by {
            lemma_pack_bounds(n + 1, cap, i);
            if i < m {
                lemma_pack_bounds(n, cap, i);
            }
        }
        assert(after =~= pack(longer, cap));
    } else {
        assert(m >= 1);
        assert(packed[m - 1].len() < cap) by {
            lemma_pack_bounds(n, cap, m - 1);
        }
        lemma_first_with_room(packed, cap, 0, m - 1);
        lemma_segments_needed_is(n + 1, cap, m);
        let after = packed.update(m - 1, packed[m - 1].push(item));
        assert(after.len() == pack(longer, cap).len());
        assert forall|i: int| 0 <= i < after.len() implies after[i] =~= pack(longer, cap)[i] by {
            lemma_pack_bounds(n + 1, cap, i);
            lemma_pack_bounds(n, cap, i);
        }
        assert(after =~= pack(longer, cap));
    }
}

/// The elements of a packing are the packed sequence.
pub proof fn lemma_pack_flatten<T>(items: Seq<T>, cap: nat)
    requires
        cap >= 1,
    ensures
        pack(items, cap).flatten() == items,
    decreases items.len(),
{
    if items.len() == 0 {
        lemma_segments_needed(0, cap);
        assert(pack(items, cap) =~= Seq::<Seq<T>>::empty());
        assert(items =~= Seq::<T>::empty());
    } else {
        let shorter = items.drop_last();
        let packed = pack(shorter, cap);
        lemma_pack_flatten(shorter, cap);
        lemma_pack_push(shorter, cap, items.last());
        lemma_pack_lengths(shorter, cap);
        assert(shorter.push(items.last()) =~= items);
        let k = first_with_room(packed, cap, 0);
        lemma_first_with_room_is(packed, cap, 0);
        if k < packed.len() {
            assert(k == packed.len() - 1);
            lemma_push_into(packed, k, items.last());
            lemma_flatten_around(packed, k);
            assert(packed.skip(k + 1) =~= Seq::<Seq<T>>::empty());
            assert(shorter.insert(shorter.len() as int, items.last()) =~= items);
        } else {
            packed.lemma_flatten_push(seq![items.last()]);
            assert(shorter + seq![items.last()] =~= items);
        }
    }
}

/// Inserting the elements of a sequence one by one into no segments at all packs the sequence.
pub proof fn lemma_with_items_packs<T>(items: Seq<T>, cap: nat)
    requires
        cap >= 1,
    ensures
        with_items(Seq::<Seq<T>>::empty(), cap, items) == pack(items, cap),
    decreases items.len(),
{
    if items.len() == 0 {
        lemma_segments_needed(0, cap);
        assert(pack(items, cap) =~= Seq::<Seq<T>>::empty());
    } else {
        lemma_with_items_packs(items.drop_last(), cap);
        lemma_pack_push(items.drop_last(), cap, items.last());
        assert(items.drop_last().push(items.last()) =~= items);
    }
}

/// Segments within capacity hold no more elements than their number times the capacity.
pub proof fn lemma_flatten_len_bound<T>(segments: Seq<Seq<T>>, cap: nat)
    requires
        within_capacity(segments, cap),
    ensures
        segments.flatten().len() <= segments.len() * cap,
    decreases segments.len(),
{
    if segments.len() > 0 {
        let rest = segments.drop_first();
        assert forall|i: int| 0 <= i < rest.len() implies (#[trigger] rest[i]).len() <= cap by {
            assert(rest[i] == segments[i + 1]);
        }
        lemma_flatten_len_bound(rest, cap);
        assert(segments.len() * cap == rest.len() * cap + cap) by (nonlinear_arith)
            requires
                segments.len() == rest.len() + 1,
        ;
    }
}

/// Where no index from `g` up to `h` lands on an element, seeking from `g` is seeking from `h`.
pub proof fn lemma_seek_skip<T>(segments: Seq<Seq<T>>, cap: nat, g: int, h: int)
    requires
        cap >= 1,
        0 <= g <= h <= segments.len() * cap,
        forall|x: int| g <= x < h ==> !lands(segments, cap, x),
    ensures
        seek(segments, cap, g) == seek(segments, cap, h),
    decreases h - g,
{
    if g < h {
        assert(!lands(segments, cap, g));
        lemma_seek_skip(segments, cap, g + 1, h);
    }
}

/// Index `seg * cap + pos`, with `pos` below `cap`, reads as position `pos` of segment `seg`.
pub proof fn lemma_slot_of_index(cap: nat, seg: int, pos: int)
    requires
        cap >= 1,
        0 <= pos < cap,
    ensures
        (seg * cap + pos) / (cap as int) == seg,
        (seg * cap + pos) % (cap as int) == pos,
{
    lemma_fundamental_div_mod_converse(seg * cap + pos, cap as int, seg, pos);
}

/// From position `pos` of segment `seg` on, no index lands in that segment
/// where the segment holds no more than `pos` elements.
pub proof fn lemma_seek_next_segment<T>(segments: Seq<Seq<T>>, cap: nat, seg: int, pos: int)
    requires
        cap >= 1,
        0 <= seg < segments.len(),
        0 <= pos < cap,
        segments[seg].len() <= pos,
    ensures
        seek(segments, cap, seg * cap + pos) == seek(segments, cap, (seg + 1) * cap),
{
    assert((seg + 1) * cap == seg * cap + cap) by (nonlinear_arith);
    assert(0 <= seg * cap && (seg + 1) * cap <= segments.len() * cap) by (nonlinear_arith)
        requires
            0 <= seg < segments.len(),
            cap >= 1,
    ;
    assert forall|x: int| seg * cap + pos <= x < (seg + 1) * cap implies !lands(segments, cap, x) by {
        lemma_slot_of_index(cap, seg, x - seg * cap);
    }
    lemma_seek_skip(segments, cap, seg * cap + pos, (seg + 1) * cap);
}

/// In segments within capacity, an index below the number of elements leaves
/// more elements in and behind the segment it reads as than lie before the
/// position it reads as.
pub proof fn lemma_hint_in_reach<T>(segments: Seq<Seq<T>>, cap: nat, index: int)
    requires
        cap >= 1,
        within_capacity(segments, cap),
        0 <= index < segments.flatten().len(),
    ensures
        0 <= index / (cap as int) < segments.len(),
        0 <= index % (cap as int) < cap,
        segments.skip(index / (cap as int)).flatten().len() > index % (cap as int),
{
    let seg = index / (cap as int);
    let pos = index % (cap as int);
    lemma_fundamental_div_mod(index, cap as int);
    assert(seg * cap == cap * seg) by (nonlinear_arith);
    assert(0 <= seg) by (nonlinear_arith)
        requires
            index == cap * seg + pos,
            0 <= pos < cap,
            index >= 0,
    ;
    lemma_flatten_len_bound(segments, cap);
    if seg >= segments.len() {
        assert(segments.len() * cap <= seg * cap) by (nonlinear_arith)
            requires
                segments.len() <= seg,
                cap >= 1,
        ;
        assert(false);
    }
    lemma_flatten_split(segments, seg);
    let before = segments.take(seg);
    assert forall|i: int| 0 <= i < before.len() implies (#[trigger] before[i]).len() <= cap by {
        assert(before[i] == segments[i]);
    }
    lemma_flatten_len_bound(before, cap);
}

/// The elements from segment `seg` on are those of segment `seg` and those behind it.
pub proof fn lemma_flatten_skip<T>(segments: Seq<Seq<T>>, seg: int)
    requires
        0 <= seg < segments.len(),
    ensures
        segments.skip(seg).flatten() == segments[seg] + segments.skip(seg + 1).flatten(),
{
    let rest = segments.skip(seg);
    assert(rest.first() == segments[seg]);
    assert(rest.drop_first() =~= segments.skip(seg + 1));
}

/// An element is among the elements exactly when some segment holds it.
pub proof fn lemma_flatten_contains<T>(segments: Seq<Seq<T>>, t: T)
    ensures
        segments.flatten().contains(t) <==> exists|i: int|
            0 <= i < segments.len() && (#[trigger] segments[i]).contains(t),
    decreases segments.len(),
{
    if segments.len() > 0 {
        let first = segments.first();
        let rest = segments.drop_first();
        lemma_flatten_contains(rest, t);
        if segments.flatten().contains(t) {
            let k = choose|k: int| 0 <= k < segments.flatten().len() && segments.flatten()[k] == t;
            if k < first.len() {
                assert(first[k] == t);
                assert(segments[0].contains(t));
            } else {
                assert(rest.flatten()[k - first.len()] == t);
                let i = choose|i: int| 0 <= i < rest.len() && (#[trigger] rest[i]).contains(t);
                assert(segments[i + 1] == rest[i]);
            }
        }
        if exists|i: int| 0 <= i < segments.len() && (#[trigger] segments[i]).contains(t) {
            let i = choose|i: int| 0 <= i < segments.len() && (#[trigger] segments[i]).contains(t);
            if i == 0 {
                let j = choose|j: int| 0 <= j < first.len() && first[j] == t;
                assert(segments.flatten()[j] == t);
            } else {
                assert(rest[i - 1] == segments[i]);
                let k = choose|k: int| 0 <= k < rest.flatten().len() && rest.flatten()[k] == t;
                assert(segments.flatten()[first.len() + k] == t);
            }
        }
    }
}

/// Segments that each lost elements hold no more elements than before.
pub proof fn lemma_flatten_len_le<T>(before: Seq<Seq<T>>, after: Seq<Seq<T>>)
    requires
        after.len() == before.len(),
        forall|i: int| 0 <= i < before.len() ==> (#[trigger] after[i]).len() <= before[i].len(),
    ensures
        after.flatten().len() <= before.flatten().len(),
    decreases before.len(),
{
    if before.len() > 0 {
        assert(after.first().len() <= before.first().len());
        assert forall|i: int| 0 <= i < before.drop_first().len() implies (#[trigger] after.drop_first()[i]).len()
            <= before.drop_first()[i].len() by {
            assert(after.drop_first()[i] == after[i + 1]);
        }
        lemma_flatten_len_le(before.drop_first(), after.drop_first());
    }
}

/// As many elements leave a sequence with a value as the sequence holds copies of it.
pub proof fn lemma_without_value_len<T>(s: Seq<T>, t: T)
    ensures
        without_value(s, t).len() + s.to_multiset().count(t) == s.len(),
    decreases s.len(),
{
    let keep = |x: T| x != t;
    if s.len() == 0 {
        assert(s.filter(keep) =~= Seq::<T>::empty()) by {
            reveal(Seq::filter);
        }
        s.to_multiset_ensures();
        assert(s.to_multiset().len() == 0);
    } else {
        let rest = s.drop_last();
        lemma_without_value_len(rest, t);
        assert(rest.push(s.last()) =~= s);
        rest.lemma_filter_len_push(keep, s.last());
        to_multiset_build(rest, s.last());
    }
}

/// Taking a value out of every segment takes it out of the elements.
pub proof fn lemma_each_without<T>(segments: Seq<Seq<T>>, t: T)
    ensures
        each_without(segments, t).flatten() == without_value(segments.flatten(), t),
        each_without(segments, t).flatten().len() + segments.flatten().to_multiset().count(t)
            == segments.flatten().len(),
        !each_without(segments, t).flatten().contains(t),
        forall|i: int|
            0 <= i < segments.len() ==> !(#[trigger] each_without(segments, t)[i]).contains(t),
{
    let after = each_without(segments, t);
    lemma_flatten_without_value(segments, after, t);
    lemma_flatten_contains(after, t);
    lemma_without_value_len(segments.flatten(), t);
}

/// Taking a value out of every segment takes it out of the elements.
proof fn lemma_flatten_without_value<T>(before: Seq<Seq<T>>, after: Seq<Seq<T>>, t: T)
    requires
        after.len() == before.len(),
        forall|i: int| 0 <= i < before.len() ==> #[trigger] after[i] == without_value(before[i], t),
    ensures
        after.flatten() == without_value(before.flatten(), t),
        !after.flatten().contains(t),
    decreases before.len(),
{
    let keep = |x: T| x != t;
    if before.len() == 0 {
        assert(before.flatten().filter(keep) =~= Seq::<T>::empty()) by {
            reveal(Seq::filter);
        }
    } else {
        assert(after.first() == without_value(before.first(), t));
        assert forall|i: int| 0 <= i < before.drop_first().len() implies #[trigger] after.drop_first()[i]
            == without_value(before.drop_first()[i], t) by {
            assert(after.drop_first()[i] == after[i + 1]);
        }
        lemma_flatten_without_value(before.drop_first(), after.drop_first(), t);
        Seq::filter_distributes_over_add(before.first(), before.drop_first().flatten(), keep);
    }
    if after.flatten().contains(t) {
        let k = choose|k: int| 0 <= k < after.flatten().len() && after.flatten()[k] == t;
        before.flatten().lemma_filter_pred(keep, k);
        assert(keep(after.flatten()[k]));
    }
}

/// Before segment `seg` of a packing lie `seg` times `cap` elements.
pub proof fn lemma_pack_index_offset<T>(items: Seq<T>, cap: nat, seg: int)
    requires
        cap >= 1,
        0 <= seg < pack(items, cap).len(),
    ensures
        offset_of(pack(items, cap), seg) == seg * cap,
    decreases seg,
{
    let packed = pack(items, cap);
    if seg == 0 {
        assert(packed.take(0) =~= Seq::<Seq<T>>::empty());
    } else {
        lemma_pack_index_offset(items, cap, seg - 1);
        lemma_flatten_around(packed, seg - 1);
        lemma_pack_lengths(items, cap);
        assert(seg * cap == (seg - 1) * cap + cap) by (nonlinear_arith);
    }
}

/// In a packing every global index below the number of elements lands on an
/// element at once, and on the element with that place in the sequence.
pub proof fn lemma_packed_index<T>(items: Seq<T>, cap: nat, index: int)
    requires
        cap >= 1,
        0 <= index < items.len(),
    ensures
        seek(pack(items, cap), cap, index) == index,
        slot_exists(pack(items, cap), index / (cap as int), index % (cap as int)),
        pack(items, cap)[index / (cap as int)][index % (cap as int)] == items[index],
{
    let seg = index / (cap as int);
    let pos = index % (cap as int);
    let m = segments_needed(items.len(), cap) as int;
    lemma_fundamental_div_mod(index, cap as int);
    lemma_segments_needed(items.len(), cap);
    assert(seg * cap == cap * seg) by (nonlinear_arith);
    assert(0 <= seg < m) by (nonlinear_arith)
        requires
            index == seg * cap + pos,
            0 <= pos < cap,
            0 <= index < m * cap,
    {
        if seg >= m {
            assert(seg * cap >= m * cap);
        }
        if seg < 0 {
            assert(seg * cap <= -1 * cap);
        }
    }
    lemma_pack_bounds(items.len(), cap, seg);
}

} // verus!
