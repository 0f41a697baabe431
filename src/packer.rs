//! A first-fit anchor packer: items are sorted largest first and placed at
//! the first candidate corner where they fit, growing the bucket up to a
//! maximum size and opening new buckets for what is left over.

use vstd::prelude::*;

use crate::geometry::Rect;
use crate::id::Id;
use crate::types::{Bucket, BucketModel, InputItem, OutputItem, PackOutput};

verus! {

/// The working state of one packing pass over a bucket.
pub struct PassState {
    pub anchors: Seq<(u32, u32)>,
    pub placed: Seq<OutputItem>,
    pub unplaced: Seq<InputItem>,
}

/// Whether a point lies strictly inside a bucket.
pub open(crate) spec fn point_inside(p: (u32, u32), bucket: (u32, u32)) -> bool {
    p.0 < bucket.0 && p.1 < bucket.1
}

/// Whether an item of `size` can be placed at `anchor`: it meets none of the
/// placed items and its far corner is strictly inside the bucket.
pub open(crate) spec fn fits_at(
    anchor: (u32, u32),
    size: (u32, u32),
    placed: Seq<OutputItem>,
    bucket: (u32, u32),
) -> bool {
    let r = Rect { pos: anchor, size };
    &&& forall|k: int| 0 <= k < placed.len() ==> !r.spec_intersects(#[trigger] placed[k].rect)
    &&& r.strictly_inside(bucket)
}

/// The first anchor at index `i` or later where the item fits, or the number
/// of anchors if there is none.
pub open(crate) spec fn first_fit(
    anchors: Seq<(u32, u32)>,
    size: (u32, u32),
    placed: Seq<OutputItem>,
    bucket: (u32, u32),
    i: int,
) -> int
    decreases anchors.len() - i,
{
    if i >= anchors.len() {
        anchors.len() as int
    } else if fits_at(anchors[i], size, placed, bucket) {
        i
    } else {
        first_fit(anchors, size, placed, bucket, i + 1)
    }
}

/// Adds `p` to the anchors when it lies strictly inside the bucket.
pub open(crate) spec fn push_if_inside(anchors: Seq<(u32, u32)>, p: (u32, u32), bucket: (u32, u32)) -> Seq<(u32, u32)> {
    if point_inside(p, bucket) {
        anchors.push(p)
    } else {
        anchors
    }
}

/// One step of a pass: place `item` at its first fitting anchor, replacing
/// that anchor with the corners to its right and below, or set it aside.
pub open(crate) spec fn pass_step(st: PassState, item: InputItem, bucket: (u32, u32)) -> PassState {
    let k = first_fit(st.anchors, item.size, st.placed, bucket, 0);
    if k < st.anchors.len() {
        let a = st.anchors[k];
        let right = ((a.0 + item.size.0) as u32, a.1);
        let below = (a.0, (a.1 + item.size.1) as u32);
        let anchors = push_if_inside(push_if_inside(st.anchors.remove(k), right, bucket), below, bucket);
        let out = OutputItem { id: item.id, rect: Rect { pos: a, size: item.size } };
        PassState { anchors, placed: st.placed.push(out), unplaced: st.unplaced }
    } else {
        PassState { anchors: st.anchors, placed: st.placed, unplaced: st.unplaced.push(item) }
    }
}

/// A whole pass over `items`, in order, into a bucket of the given size.
pub open(crate) spec fn pass(items: Seq<InputItem>, bucket: (u32, u32)) -> PassState
    decreases items.len(),
{
    if items.len() == 0 {
        PassState { anchors: seq![(0u32, 0u32)], placed: Seq::empty(), unplaced: Seq::empty() }
    } else {
        pass_step(pass(items.drop_last(), bucket), items.last(), bucket)
    }
}

/// Placed items that pairwise do not intersect and lie strictly inside.
pub open(crate) spec fn valid_placement(items: Seq<OutputItem>, bucket: (u32, u32)) -> bool {
    &&& forall|i: int, j: int|
        0 <= i < items.len() && 0 <= j < items.len() && i != j
            ==> !(#[trigger] items[i].rect).spec_intersects(#[trigger] items[j].rect)
    &&& forall|i: int| 0 <= i < items.len() ==> (#[trigger] items[i].rect).strictly_inside(bucket)
}

proof fn lemma_first_fit_bounds(
    anchors: Seq<(u32, u32)>,
    size: (u32, u32),
    placed: Seq<OutputItem>,
    bucket: (u32, u32),
    i: int,
)
    requires
        0 <= i <= anchors.len(),
    ensures
        i <= first_fit(anchors, size, placed, bucket, i) <= anchors.len(),
        first_fit(anchors, size, placed, bucket, i) < anchors.len() ==> fits_at(
            anchors[first_fit(anchors, size, placed, bucket, i)],
            size,
            placed,
            bucket,
        ),
    decreases anchors.len() - i,
{
    if i < anchors.len() && !fits_at(anchors[i], size, placed, bucket) {
        lemma_first_fit_bounds(anchors, size, placed, bucket, i + 1);
    }
}

/// A pass keeps its placements valid and accounts for every item once.
pub(crate) proof fn lemma_pass_valid(items: Seq<InputItem>, bucket: (u32, u32))
    ensures
        valid_placement(pass(items, bucket).placed, bucket),
        pass(items, bucket).placed.len() + pass(items, bucket).unplaced.len() == items.len(),
    decreases items.len(),
{
    if items.len() > 0 {
        let prev = pass(items.drop_last(), bucket);
        lemma_pass_valid(items.drop_last(), bucket);
        let item = items.last();
        lemma_first_fit_bounds(prev.anchors, item.size, prev.placed, bucket, 0);
        let st = pass(items, bucket);
        let k = first_fit(prev.anchors, item.size, prev.placed, bucket, 0);
        if k < prev.anchors.len() {
            let n = prev.placed.len() as int;
            assert forall|i: int, j: int|
                0 <= i < st.placed.len() && 0 <= j < st.placed.len() && i != j implies !(
                #[trigger] st.placed[i].rect).spec_intersects(#[trigger] st.placed[j].rect) by {
                if i == n {
                    assert(!st.placed[i].rect.spec_intersects(prev.placed[j].rect));
                } else if j == n {
                    assert(!st.placed[j].rect.spec_intersects(prev.placed[i].rect));
                } else {
                    assert(st.placed[i] == prev.placed[i]);
                }
            }
            assert forall|i: int| 0 <= i < st.placed.len() implies (
            #[trigger] st.placed[i].rect).strictly_inside(bucket) by {
                if i < n {
                    assert(st.placed[i] == prev.placed[i]);
                }
            }
        }
    }
}

/// The first item of a pass always fits at the origin of a bucket that is
/// larger than it, so a pass in such a bucket places at least one item.
pub(crate) proof fn lemma_pass_places_first(items: Seq<InputItem>, bucket: (u32, u32))
    requires
        items.len() > 0,
        items[0].size.0 < bucket.0,
        items[0].size.1 < bucket.1,
    ensures
        pass(items, bucket).placed.len() >= 1,
    decreases items.len(),
{
    if items.len() == 1 {
        let init = pass(items.drop_last(), bucket);
        assert(fits_at(init.anchors[0], items[0].size, init.placed, bucket));
        assert(first_fit(init.anchors, items[0].size, init.placed, bucket, 0) == 0);
    } else {
        assert(items.drop_last()[0] == items[0]);
        lemma_pass_places_first(items.drop_last(), bucket);
    }
}

/// Runs one pass of the packer over `items` into a bucket of `bucket_size`,
/// returning the bucket and the items that did not fit, in order.
pub fn pack_one_bucket(items: &Vec<InputItem>, bucket_size: (u32, u32)) -> (r: (Bucket, Vec<InputItem>))
    ensures
        r.0@.size == bucket_size,
        r.0@.items == pass(items@, bucket_size).placed,
        r.1@ == pass(items@, bucket_size).unplaced,
{
    let mut anchors: Vec<(u32, u32)> = vec![(0, 0)];
    let mut placed: Vec<OutputItem> = Vec::new();
    let mut unplaced: Vec<InputItem> = Vec::new();
    let mut i: usize = 0;
    proof {
        assert(items@.subrange(0, 0).len() == 0);
        assert(anchors@ =~= seq![(0u32, 0u32)]);
    }
    while i < items.len()
        invariant
            0 <= i <= items@.len(),
            anchors@ == pass(items@.subrange(0, i as int), bucket_size).anchors,
            placed@ == pass(items@.subrange(0, i as int), bucket_size).placed,
            unplaced@ == pass(items@.subrange(0, i as int), bucket_size).unplaced,
        decreases items@.len() - i,
    {
        let item = items[i];
        proof {
            let next = items@.subrange(0, i + 1);
            assert(next.drop_last() =~= items@.subrange(0, i as int));
            assert(next.last() == item);
            lemma_pass_valid(items@.subrange(0, i as int), bucket_size);
            lemma_first_fit_bounds(anchors@, item.size, placed@, bucket_size, 0);
        }
        let fit = find_fit(&anchors, item.size, &placed, bucket_size);
        if fit < anchors.len() {
            let anchor = anchors.remove(fit);
            let right: (u32, u32) = (anchor.0 + item.size.0, anchor.1);
            if right.0 < bucket_size.0 && right.1 < bucket_size.1 {
                anchors.push(right);
            }
            let below: (u32, u32) = (anchor.0, anchor.1 + item.size.1);
            if below.0 < bucket_size.0 && below.1 < bucket_size.1 {
                anchors.push(below);
            }
            placed.push(OutputItem { id: item.id, rect: Rect { pos: anchor, size: item.size } });
        } else {
            unplaced.push(item);
        }
        i = i + 1;
    }
    proof {
        assert(items@.subrange(0, items@.len() as int) =~= items@);
    }
    (Bucket { size: bucket_size, items: placed }, unplaced)
}

/// Finds the first anchor where an item of `size` fits, or the number of
/// anchors if it fits at none.
fn find_fit(
    anchors: &Vec<(u32, u32)>,
    size: (u32, u32),
    placed: &Vec<OutputItem>,
    bucket_size: (u32, u32),
) -> (r: usize)
    ensures
        r == first_fit(anchors@, size, placed@, bucket_size, 0),
{
    let mut j: usize = 0;
    while j < anchors.len()
        invariant
            0 <= j <= anchors@.len(),
            first_fit(anchors@, size, placed@, bucket_size, j as int) == first_fit(
                anchors@,
                size,
                placed@,
                bucket_size,
                0,
            ),
        decreases anchors@.len() - j,
    {
        let candidate = Rect { pos: anchors[j], size };
        let max_x = candidate.pos.0 as u64 + candidate.size.0 as u64;
        let max_y = candidate.pos.1 as u64 + candidate.size.1 as u64;
        if max_x < bucket_size.0 as u64 && max_y < bucket_size.1 as u64 && !meets_any(&candidate, placed) {
            return j;
        }
        j = j + 1;
    }
    j
}

/// Whether `candidate` intersects any of the placed items.
fn meets_any(candidate: &Rect, placed: &Vec<OutputItem>) -> (r: bool)
    ensures
        r == exists|k: int| 0 <= k < placed@.len() && candidate.spec_intersects(#[trigger] placed@[k].rect),
{
    let mut k: usize = 0;
    while k < placed.len()
        invariant
            0 <= k <= placed@.len(),
            forall|m: int| 0 <= m < k ==> !candidate.spec_intersects(#[trigger] placed@[m].rect),
        decreases placed@.len() - k,
    {
        if candidate.intersects(&placed[k].rect) {
            return true;
        }
        k = k + 1;
    }
    false
}

/// The first index at `i` or later whose item has a smaller area than `a`,
/// or the length of `s` if there is none.
pub open(crate) spec fn first_smaller(s: Seq<InputItem>, a: int, i: int) -> int
    decreases s.len() - i,
{
    if i >= s.len() {
        s.len() as int
    } else if s[i].spec_area() < a {
        i
    } else {
        first_smaller(s, a, i + 1)
    }
}

/// Inserts `x` into `s` after every item whose area is at least its own.
pub open(crate) spec fn insert_by_area(s: Seq<InputItem>, x: InputItem) -> Seq<InputItem> {
    s.insert(first_smaller(s, x.spec_area(), 0), x)
}

/// The items ordered by area, largest first; items of equal area keep their
/// order.
pub open(crate) spec fn sort_by_area(s: Seq<InputItem>) -> Seq<InputItem>
    decreases s.len(),
{
    if s.len() == 0 {
        s
    } else {
        insert_by_area(sort_by_area(s.drop_last()), s.last())
    }
}

proof fn lemma_first_smaller_bounds(s: Seq<InputItem>, a: int, i: int)
    requires
        0 <= i <= s.len(),
    ensures
        i <= first_smaller(s, a, i) <= s.len(),
    decreases s.len() - i,
{
    if i < s.len() && s[i].spec_area() >= a {
        lemma_first_smaller_bounds(s, a, i + 1);
    }
}

/// Sorting keeps the items, whatever is read from each of them.
pub(crate) proof fn lemma_sort_keeps_items<T>(s: Seq<InputItem>, f: spec_fn(InputItem) -> T)
    ensures
        sort_by_area(s).len() == s.len(),
        sort_by_area(s).map_values(f).to_multiset() == s.map_values(f).to_multiset(),
    decreases s.len(),
{
    broadcast use vstd::seq_lib::group_to_multiset_ensures;

    if s.len() > 0 {
        let rest = sort_by_area(s.drop_last());
        lemma_sort_keeps_items(s.drop_last(), f);
        let k = first_smaller(rest, s.last().spec_area(), 0);
        lemma_first_smaller_bounds(rest, s.last().spec_area(), 0);
        assert(rest.insert(k, s.last()).map_values(f) =~= rest.map_values(f).insert(k, f(s.last())));
        vstd::seq_lib::to_multiset_insert(rest.map_values(f), k, f(s.last()));
        assert(s.map_values(f) =~= s.drop_last().map_values(f).push(f(s.last())));
    }
}

fn sort_items(items: &[InputItem]) -> (r: Vec<InputItem>)
    ensures
        r@ == sort_by_area(items@),
{
    let mut sorted: Vec<InputItem> = Vec::new();
    let mut i: usize = 0;
    proof {
        assert(items@.subrange(0, 0) =~= Seq::<InputItem>::empty());
    }
    while i < items.len()
        invariant
            0 <= i <= items@.len(),
            sorted@ == sort_by_area(items@.subrange(0, i as int)),
        decreases items@.len() - i,
    {
        let item = items[i];
        let a = item.area();
        let mut k: usize = 0;
        proof {
            lemma_sort_keeps_items(items@.subrange(0, i as int), |x: InputItem| x);
            assert(items@.subrange(0, i as int).map_values(|x: InputItem| x).len() == i);
        }
        while k < sorted.len() && sorted[k].area() >= a
            invariant
                0 <= k <= sorted@.len(),
                first_smaller(sorted@, a as int, k as int) == first_smaller(sorted@, a as int, 0),
            decreases sorted@.len() - k,
        {
            k = k + 1;
        }
        sorted.insert(k, item);
        proof {
            let next = items@.subrange(0, i + 1);
            assert(next.drop_last() =~= items@.subrange(0, i as int));
            assert(next.last() == item);
        }
        i = i + 1;
    }
    proof {
        assert(items@.subrange(0, items@.len() as int) =~= items@);
    }
    sorted
}

/// The item with `padding` added to both sides of its size.
pub open(crate) spec fn pad_item(x: InputItem, padding: u32) -> InputItem {
    InputItem { id: x.id, size: ((x.size.0 + padding) as u32, (x.size.1 + padding) as u32) }
}

pub open(crate) spec fn pad_all(s: Seq<InputItem>, padding: u32) -> Seq<InputItem> {
    s.map_values(|x: InputItem| pad_item(x, padding))
}

/// The placed item with `padding` taken back off its size.
pub open(crate) spec fn unpad_item(o: OutputItem, padding: u32) -> OutputItem {
    OutputItem { id: o.id, rect: Rect { pos: o.rect.pos, size: ((o.rect.size.0 - padding) as u32, (o.rect.size.1 - padding) as u32) } }
}

pub open(crate) spec fn unpad_bucket(b: BucketModel, padding: u32) -> BucketModel {
    BucketModel { size: b.size, items: b.items.map_values(|o: OutputItem| unpad_item(o, padding)) }
}

/// Whether the padded item cannot fit in a bucket of `max_size`: a placed
/// item must end strictly before the bucket's far edge.
pub open(crate) spec fn too_large(x: InputItem, max_size: (u32, u32), padding: u32) -> bool {
    x.size.0 + padding >= max_size.0 || x.size.1 + padding >= max_size.1
}

/// The first index at `i` or later whose item is too large, or the length of
/// `s` if there is none.
pub open(crate) spec fn first_too_large(s: Seq<InputItem>, max_size: (u32, u32), padding: u32, i: int) -> int
    decreases s.len() - i,
{
    if i >= s.len() {
        s.len() as int
    } else if too_large(s[i], max_size, padding) {
        i
    } else {
        first_too_large(s, max_size, padding, i + 1)
    }
}

/// How far a bucket size still is from the maximum, summed over both axes.
pub open(crate) spec fn growth_gap(cur: (u32, u32), max_size: (u32, u32)) -> int {
    (if cur.0 < max_size.0 { max_size.0 - cur.0 } else { 0int }) + (if cur.1 < max_size.1 {
        max_size.1 - cur.1
    } else {
        0int
    })
}

/// Doubles each axis of the bucket size, clamped to the maximum.
pub open(crate) spec fn grow(cur: (u32, u32), max_size: (u32, u32)) -> (u32, u32) {
    (
        if 2 * cur.0 < max_size.0 { (2 * cur.0) as u32 } else { max_size.0 },
        if 2 * cur.1 < max_size.1 { (2 * cur.1) as u32 } else { max_size.1 },
    )
}

pub open(crate) spec fn can_grow(cur: (u32, u32), max_size: (u32, u32)) -> bool {
    cur.0 < max_size.0 || cur.1 < max_size.1
}

/// Packs `items` into one bucket, starting at size `cur` and doubling it
/// until everything fits or the maximum is reached; returns the bucket and
/// the items left over.
pub open(crate) spec fn fill_bucket(items: Seq<InputItem>, cur: (u32, u32), max_size: (u32, u32)) -> (BucketModel, Seq<InputItem>)
    decreases growth_gap(cur, max_size),
{
    let st = pass(items, cur);
    if st.unplaced.len() == 0 {
        (BucketModel { size: cur, items: st.placed }, st.unplaced)
    } else if cur.0 > 0 && cur.1 > 0 && can_grow(cur, max_size) {
        fill_bucket(items, grow(cur, max_size), max_size)
    } else {
        (BucketModel { size: cur, items: st.placed }, st.unplaced)
    }
}

/// Fills buckets one after another, each starting at `min_size`, until no
/// item is left.
pub open(crate) spec fn fill_buckets(items: Seq<InputItem>, min_size: (u32, u32), max_size: (u32, u32)) -> Seq<BucketModel>
    decreases items.len(),
{
    if items.len() == 0 {
        Seq::empty()
    } else {
        let (b, rest) = fill_bucket(items, min_size, max_size);
        if rest.len() < items.len() {
            seq![b] + fill_buckets(rest, min_size, max_size)
        } else {
            seq![b]
        }
    }
}

/// The error that packing `items` under this configuration gives, if any.
pub open(crate) spec fn pack_error(
    items: Seq<InputItem>,
    min_size: (u32, u32),
    max_size: (u32, u32),
    padding: u32,
) -> Option<PackError> {
    let k = first_too_large(items, max_size, padding, 0);
    if k < items.len() {
        Some(PackError::ItemTooLarge(items[k].id))
    } else if items.len() > 0 && (min_size.0 == 0 || min_size.1 == 0) {
        Some(PackError::EmptyMinSize)
    } else {
        None
    }
}

/// The buckets that packing `items` gives when there is no error: items are
/// sorted largest first, padded, packed, and unpadded again.
pub open(crate) spec fn packed(
    items: Seq<InputItem>,
    min_size: (u32, u32),
    max_size: (u32, u32),
    padding: u32,
) -> Seq<BucketModel> {
    fill_buckets(pad_all(sort_by_area(items), padding), min_size, max_size).map_values(
        |b: BucketModel| unpad_bucket(b, padding),
    )
}

/// Why a set of items cannot be packed.
#[derive(Clone, Copy, Debug, PartialEq, Eq, Structural)]
pub enum PackError {
    /// This item, with padding, is at least as large as the maximum bucket
    /// size on some axis, so it can never be placed.
    ItemTooLarge(Id),
    /// The minimum bucket size is zero on some axis, so growing it by
    /// doubling never makes room for anything.
    EmptyMinSize,
}

/// Every item's size satisfies `p`.
pub open(crate) spec fn sizes_satisfy(s: Seq<InputItem>, p: spec_fn((u32, u32)) -> bool) -> bool {
    forall|i: int| 0 <= i < s.len() ==> p(#[trigger] s[i].size)
}

/// Every placed item's size satisfies `p`.
pub open(crate) spec fn placed_sizes_satisfy(s: Seq<OutputItem>, p: spec_fn((u32, u32)) -> bool) -> bool {
    forall|i: int| 0 <= i < s.len() ==> p(#[trigger] s[i].rect.size)
}

/// A pass places and sets aside only the items it was given, so a property
/// of all their sizes carries over to both results.
pub(crate) proof fn lemma_pass_sizes(items: Seq<InputItem>, bucket: (u32, u32), p: spec_fn((u32, u32)) -> bool)
    requires
        sizes_satisfy(items, p),
    ensures
        placed_sizes_satisfy(pass(items, bucket).placed, p),
        sizes_satisfy(pass(items, bucket).unplaced, p),
    decreases items.len(),
{
    if items.len() > 0 {
        let prev = pass(items.drop_last(), bucket);
        assert(sizes_satisfy(items.drop_last(), p)) by {
            assert forall|i: int| 0 <= i < items.drop_last().len() implies p(
                #[trigger] items.drop_last()[i].size,
            ) by {
                assert(items.drop_last()[i] == items[i]);
            }
        }
        lemma_pass_sizes(items.drop_last(), bucket, p);
        assert(p(items[items.len() - 1].size));
        let st = pass(items, bucket);
        let item = items.last();
        lemma_first_fit_bounds(prev.anchors, item.size, prev.placed, bucket, 0);
        if first_fit(prev.anchors, item.size, prev.placed, bucket, 0) < prev.anchors.len() {
            assert(st.placed == prev.placed.push(
                OutputItem {
                    id: item.id,
                    rect: Rect {
                        pos: prev.anchors[first_fit(prev.anchors, item.size, prev.placed, bucket, 0)],
                        size: item.size,
                    },
                },
            ));
        } else {
            assert(st.placed == prev.placed);
        }
        assert forall|i: int| 0 <= i < st.placed.len() implies p(#[trigger] st.placed[i].rect.size) by {
            if i < prev.placed.len() {
                assert(st.placed[i] == prev.placed[i]);
                assert(p(prev.placed[i].rect.size));
            } else {
                assert(st.placed[i].rect.size == items.last().size);
            }
        }
        assert forall|i: int| 0 <= i < st.unplaced.len() implies p(#[trigger] st.unplaced[i].size) by {
            if i < prev.unplaced.len() {
                assert(st.unplaced[i] == prev.unplaced[i]);
                assert(p(prev.unplaced[i].size));
            }
        }
    }
}

proof fn lemma_grow(cur: (u32, u32), max_size: (u32, u32))
    requires
        cur.0 > 0,
        cur.1 > 0,
        max_size.0 > 0,
        max_size.1 > 0,
    ensures
        grow(cur, max_size).0 > 0,
        grow(cur, max_size).1 > 0,
{
}

/// What filling one bucket gives: a valid placement, sizes drawn from the
/// items, and, once the items are smaller than the maximum, progress.
pub(crate) proof fn lemma_fill_bucket(
    items: Seq<InputItem>,
    cur: (u32, u32),
    max_size: (u32, u32),
    p: spec_fn((u32, u32)) -> bool,
)
    requires
        cur.0 > 0,
        cur.1 > 0,
        max_size.0 > 0,
        max_size.1 > 0,
        sizes_satisfy(items, p),
    ensures
        valid_placement(fill_bucket(items, cur, max_size).0.items, fill_bucket(items, cur, max_size).0.size),
        placed_sizes_satisfy(fill_bucket(items, cur, max_size).0.items, p),
        sizes_satisfy(fill_bucket(items, cur, max_size).1, p),
        fill_bucket(items, cur, max_size).0.items.len() + fill_bucket(items, cur, max_size).1.len()
            == items.len(),
        items.len() > 0 && items[0].size.0 < max_size.0 && items[0].size.1 < max_size.1
            ==> fill_bucket(items, cur, max_size).1.len() < items.len(),
    decreases growth_gap(cur, max_size),
{
    let st = pass(items, cur);
    lemma_pass_valid(items, cur);
    lemma_pass_sizes(items, cur, p);
    if st.unplaced.len() == 0 {
    } else if can_grow(cur, max_size) {
        lemma_grow(cur, max_size);
        lemma_fill_bucket(items, grow(cur, max_size), max_size, p);
    } else {
        if items.len() > 0 && items[0].size.0 < max_size.0 && items[0].size.1 < max_size.1 {
            lemma_pass_places_first(items, cur);
        }
    }
}

fn fill_bucket_exec(items: &Vec<InputItem>, cur: (u32, u32), max_size: (u32, u32)) -> (r: (Bucket, Vec<InputItem>))
    requires
        cur.0 > 0,
        cur.1 > 0,
        max_size.0 > 0,
        max_size.1 > 0,
    ensures
        r.0@ == fill_bucket(items@, cur, max_size).0,
        r.1@ == fill_bucket(items@, cur, max_size).1,
    decreases growth_gap(cur, max_size),
{
    let (bucket, rest) = pack_one_bucket(items, cur);
    if rest.len() == 0 {
        return (bucket, rest);
    }
    if cur.0 < max_size.0 || cur.1 < max_size.1 {
        let wide: u64 = cur.0 as u64 * 2;
        let tall: u64 = cur.1 as u64 * 2;
        let next: (u32, u32) = (
            if wide < max_size.0 as u64 { wide as u32 } else { max_size.0 },
            if tall < max_size.1 as u64 { tall as u32 } else { max_size.1 },
        );
        proof {
            lemma_grow(cur, max_size);
        }
        fill_bucket_exec(items, next, max_size)
    } else {
        (bucket, rest)
    }
}

/// The size bound that every padded item meets before packing: at least the
/// padding, and strictly below the maximum bucket size.
pub open(crate) spec fn padded_size_ok(max_size: (u32, u32), padding: u32) -> spec_fn((u32, u32)) -> bool {
    |s: (u32, u32)| padding <= s.0 < max_size.0 && padding <= s.1 < max_size.1
}

/// The size property every bucket of `bs` meets: its items are validly
/// placed and their sizes satisfy `p`.
pub open(crate) spec fn buckets_satisfy(bs: Seq<BucketModel>, p: spec_fn((u32, u32)) -> bool) -> bool {
    forall|b: int|
        0 <= b < bs.len() ==> valid_placement(#[trigger] bs[b].items, bs[b].size) && placed_sizes_satisfy(
            bs[b].items,
            p,
        )
}

pub(crate) proof fn lemma_fill_buckets(
    items: Seq<InputItem>,
    min_size: (u32, u32),
    max_size: (u32, u32),
    padding: u32,
)
    requires
        min_size.0 > 0,
        min_size.1 > 0,
        max_size.0 > 0,
        max_size.1 > 0,
        sizes_satisfy(items, padded_size_ok(max_size, padding)),
    ensures
        buckets_satisfy(fill_buckets(items, min_size, max_size), padded_size_ok(max_size, padding)),
    decreases items.len(),
{
    let p = padded_size_ok(max_size, padding);
    if items.len() > 0 {
        let (b, rest) = fill_bucket(items, min_size, max_size);
        lemma_fill_bucket(items, min_size, max_size, p);
        assert(p(items[0].size));
        lemma_fill_buckets(rest, min_size, max_size, padding);
        let bs = fill_buckets(items, min_size, max_size);
        let tail = fill_buckets(rest, min_size, max_size);
        assert forall|k: int| 0 <= k < bs.len() implies valid_placement(#[trigger] bs[k].items, bs[k].size)
            && placed_sizes_satisfy(bs[k].items, p) by {
            if k > 0 {
                assert(bs[k] == tail[k - 1]);
            }
        }
    }
}

fn unpad_buckets(buckets: Vec<Bucket>, padding: u32) -> (r: Vec<Bucket>)
    requires
        forall|b: int|
            0 <= b < buckets@.len() ==> placed_sizes_satisfy(
                #[trigger] buckets@[b].items@,
                |s: (u32, u32)| padding <= s.0 && padding <= s.1,
            ),
    ensures
        r@.map_values(|b: Bucket| b@) == buckets@.map_values(|b: Bucket| b@).map_values(
            |b: BucketModel| unpad_bucket(b, padding),
        ),
{
    let mut out: Vec<Bucket> = Vec::new();
    let mut b: usize = 0;
    while b < buckets.len()
        invariant
            0 <= b <= buckets@.len(),
            out@.len() == b,
            forall|k: int| 0 <= k < b ==> (#[trigger] out@[k])@ == unpad_bucket(buckets@[k]@, padding),
            forall|k: int|
                0 <= k < buckets@.len() ==> placed_sizes_satisfy(
                    #[trigger] buckets@[k].items@,
                    |s: (u32, u32)| padding <= s.0 && padding <= s.1,
                ),
        decreases buckets@.len() - b,
    {
        let bucket = &buckets[b];
        let mut items: Vec<OutputItem> = Vec::new();
        let mut i: usize = 0;
        while i < bucket.items.len()
            invariant
                0 <= i <= bucket.items@.len(),
                bucket == &buckets@[b as int],
                items@.len() == i,
                forall|k: int| 0 <= k < i ==> #[trigger] items@[k] == unpad_item(bucket.items@[k], padding),
                placed_sizes_satisfy(bucket.items@, |s: (u32, u32)| padding <= s.0 && padding <= s.1),
            decreases bucket.items@.len() - i,
        {
            let o = bucket.items[i];
            assert(padding <= o.rect.size.0 && padding <= o.rect.size.1);
            items.push(
                OutputItem {
                    id: o.id,
                    rect: Rect { pos: o.rect.pos, size: (o.rect.size.0 - padding, o.rect.size.1 - padding) },
                },
            );
            i = i + 1;
        }
        proof {
            assert(items@ =~= bucket.items@.map_values(|o: OutputItem| unpad_item(o, padding)));
        }
        out.push(Bucket { size: bucket.size, items });
        b = b + 1;
    }
    proof {
        assert(out@.map_values(|b: Bucket| b@) =~= buckets@.map_values(|b: Bucket| b@).map_values(
            |b: BucketModel| unpad_bucket(b, padding),
        ));
    }
    out
}

/// A configurable rectangle packer.
#[derive(Clone, Copy, Debug)]
pub struct SimplePacker {
    min_size: (u32, u32),
    max_size: (u32, u32),
    padding: u32,
}

impl Default for SimplePacker {
    fn default() -> (r: SimplePacker)
        ensures
            r.spec_min_size() == (128u32, 128u32),
            r.spec_max_size() == (1024u32, 1024u32),
            r.spec_padding() == 0,
    {
        SimplePacker::new()
    }
}

impl SimplePacker {
    pub closed spec fn spec_min_size(&self) -> (u32, u32) {
        self.min_size
    }

    pub closed spec fn spec_max_size(&self) -> (u32, u32) {
        self.max_size
    }

    pub closed spec fn spec_padding(&self) -> u32 {
        self.padding
    }

    /// A packer with buckets from 128x128 up to 1024x1024 and no padding.
    pub fn new() -> (r: SimplePacker)
        ensures
            r.spec_min_size() == (128u32, 128u32),
            r.spec_max_size() == (1024u32, 1024u32),
            r.spec_padding() == 0,
    {
        SimplePacker { min_size: (128, 128), max_size: (1024, 1024), padding: 0 }
    }

    pub fn min_size(self, min_size: (u32, u32)) -> (r: SimplePacker)
        ensures
            r.spec_min_size() == min_size,
            r.spec_max_size() == self.spec_max_size(),
            r.spec_padding() == self.spec_padding(),
    {
        SimplePacker { min_size, ..self }
    }

    pub fn max_size(self, max_size: (u32, u32)) -> (r: SimplePacker)
        ensures
            r.spec_min_size() == self.spec_min_size(),
            r.spec_max_size() == max_size,
            r.spec_padding() == self.spec_padding(),
    {
        SimplePacker { max_size, ..self }
    }

    pub fn padding(self, padding: u32) -> (r: SimplePacker)
        ensures
            r.spec_min_size() == self.spec_min_size(),
            r.spec_max_size() == self.spec_max_size(),
            r.spec_padding() == padding,
    {
        SimplePacker { padding, ..self }
    }

    /// Packs the items into buckets. Fails, naming the first offending item,
    /// when an item with padding cannot fit even in a bucket of the maximum
    /// size, and fails when there are items but the minimum size is zero on
    /// some axis.
    pub fn pack(&self, items: &[InputItem]) -> (r: Result<PackOutput, PackError>)
        ensures
            r.is_err() <==> pack_error(items@, self.spec_min_size(), self.spec_max_size(), self.spec_padding()).is_some(),
            r matches Err(e) ==> Some(e) == pack_error(items@, self.spec_min_size(), self.spec_max_size(), self.spec_padding()),
            r matches Ok(out) ==> out@ == packed(items@, self.spec_min_size(), self.spec_max_size(), self.spec_padding()),
    {
        let mut i: usize = 0;
        while i < items.len()
            invariant
                0 <= i <= items@.len(),
                first_too_large(items@, self.max_size, self.padding, i as int) == first_too_large(
                    items@,
                    self.max_size,
                    self.padding,
                    0,
                ),
            decreases items@.len() - i,
        {
            let w = items[i].size.0 as u64 + self.padding as u64;
            let h = items[i].size.1 as u64 + self.padding as u64;
            if w >= self.max_size.0 as u64 || h >= self.max_size.1 as u64 {
                return Err(PackError::ItemTooLarge(items[i].id));
            }
            i = i + 1;
        }
        if items.len() > 0 && (self.min_size.0 == 0 || self.min_size.1 == 0) {
            return Err(PackError::EmptyMinSize);
        }
        let ghost p = padded_size_ok(self.max_size, self.padding);
        let sorted = sort_items(items);
        proof {
            lemma_sort_keeps_items(items@, |x: InputItem| x);
            assert(items@.map_values(|x: InputItem| x) =~= items@);
            assert(sorted@.map_values(|x: InputItem| x) =~= sorted@);
            assert forall|k: int| 0 <= k < sorted@.len() implies !too_large(#[trigger] sorted@[k], self.max_size, self.padding) by {
                lemma_first_too_large_none(items@, self.max_size, self.padding, 0);
                broadcast use vstd::seq_lib::group_to_multiset_ensures;

                assert(sorted@.contains(sorted@[k]));
                assert(sorted@.to_multiset().count(sorted@[k]) > 0);
                assert(items@.contains(sorted@[k]));
            }
        }
        let mut remaining: Vec<InputItem> = Vec::new();
        let mut k: usize = 0;
        while k < sorted.len()
            invariant
                0 <= k <= sorted@.len(),
                remaining@ == pad_all(sorted@, self.padding).subrange(0, k as int),
                forall|j: int| 0 <= j < sorted@.len() ==> !too_large(#[trigger] sorted@[j], self.max_size, self.padding),
            decreases sorted@.len() - k,
        {
            let x = sorted[k];
            remaining.push(InputItem { id: x.id, size: (x.size.0 + self.padding, x.size.1 + self.padding) });
            proof {
                assert(remaining@ =~= pad_all(sorted@, self.padding).subrange(0, k + 1));
            }
            k = k + 1;
        }
        proof {
            assert(remaining@ =~= pad_all(sorted@, self.padding));
            assert forall|j: int| 0 <= j < remaining@.len() implies p(#[trigger] remaining@[j].size) by {
                assert(!too_large(sorted@[j], self.max_size, self.padding));
            }
        }
        let ghost all = remaining@;
        if items.len() == 0 {
            proof {
                assert(sorted@.len() == 0);
                assert(fill_buckets(all, self.min_size, self.max_size) =~= Seq::empty());
            }
            let out = PackOutput { buckets: Vec::new() };
            proof {
                assert(out@ =~= packed(items@, self.min_size, self.max_size, self.padding));
            }
            return Ok(out);
        }
        proof {
            lemma_fill_buckets(all, self.min_size, self.max_size, self.padding);
        }
        let mut buckets: Vec<Bucket> = Vec::new();
        while remaining.len() > 0
            invariant
                self.min_size.0 > 0,
                self.min_size.1 > 0,
                self.max_size.0 > 0,
                self.max_size.1 > 0,
                sizes_satisfy(remaining@, p),
                p == padded_size_ok(self.max_size, self.padding),
                buckets@.map_values(|b: Bucket| b@) + fill_buckets(remaining@, self.min_size, self.max_size)
                    == fill_buckets(all, self.min_size, self.max_size),
            decreases remaining@.len(),
        {
            let ghost before = remaining@;
            let (bucket, rest) = fill_bucket_exec(&remaining, self.min_size, self.max_size);
            proof {
                assert(p(before[0].size));
                lemma_fill_bucket(before, self.min_size, self.max_size, p);
                assert(fill_buckets(before, self.min_size, self.max_size) == seq![bucket@] + fill_buckets(
                    rest@,
                    self.min_size,
                    self.max_size,
                ));
            }
            let ghost done = buckets@.map_values(|b: Bucket| b@);
            buckets.push(bucket);
            remaining = rest;
            proof {
                assert(buckets@.map_values(|b: Bucket| b@) =~= done.push(bucket@));
                assert(done.push(bucket@) + fill_buckets(remaining@, self.min_size, self.max_size) =~= done + (
                seq![bucket@] + fill_buckets(remaining@, self.min_size, self.max_size)));
            }
        }
        proof {
            assert(fill_buckets(remaining@, self.min_size, self.max_size) =~= Seq::empty());
            assert(buckets@.map_values(|b: Bucket| b@) =~= fill_buckets(all, self.min_size, self.max_size));
            let bs = fill_buckets(all, self.min_size, self.max_size);
            assert forall|b: int| 0 <= b < buckets@.len() implies placed_sizes_satisfy(
                #[trigger] buckets@[b].items@,
                |s: (u32, u32)| self.padding <= s.0 && self.padding <= s.1,
            ) by {
                assert(buckets@[b]@ == bs[b]);
                assert(placed_sizes_satisfy(bs[b].items, p));
                assert forall|i: int| 0 <= i < bs[b].items.len() implies self.padding <= (
                #[trigger] bs[b].items[i]).rect.size.0 && self.padding <= bs[b].items[i].rect.size.1 by {
                    assert(p(bs[b].items[i].rect.size));
                }
            }
        }
        let buckets = unpad_buckets(buckets, self.padding);
        Ok(PackOutput { buckets })
    }
}

pub(crate) proof fn lemma_first_too_large_none(s: Seq<InputItem>, max_size: (u32, u32), padding: u32, i: int)
    requires
        0 <= i <= s.len(),
        first_too_large(s, max_size, padding, i) == s.len(),
    ensures
        forall|j: int| i <= j < s.len() ==> !too_large(#[trigger] s[j], max_size, padding),
    decreases s.len() - i,
{
    if i < s.len() {
        lemma_first_too_large_none(s, max_size, padding, i + 1);
    }
}

} // verus!
