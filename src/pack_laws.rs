//! What every successful packing run guarantees, proved over the packer's
//! specification.

use vstd::prelude::*;

use crate::geometry::lemma_shrink_keeps_disjoint;
use crate::id::Id;
use crate::packer::{
    can_grow, fill_bucket, fill_buckets, first_fit, first_too_large, grow, growth_gap, lemma_fill_bucket,
    lemma_fill_buckets, lemma_first_too_large_none, lemma_sort_keeps_items, pack_error, packed, pad_all,
    padded_size_ok, pass, placed_sizes_satisfy, sizes_satisfy, sort_by_area, too_large, unpad_bucket,
    unpad_item, valid_placement,
};
use crate::types::{BucketModel, InputItem, OutputItem};

verus! {

broadcast use vstd::seq_lib::group_to_multiset_ensures;

/// All placed items of the buckets, bucket after bucket.
pub open(crate) spec fn all_outputs(bs: Seq<BucketModel>) -> Seq<OutputItem>
    decreases bs.len(),
{
    if bs.len() == 0 {
        Seq::empty()
    } else {
        bs[0].items + all_outputs(bs.drop_first())
    }
}

/// What `g` reads from each input item's identifier and size.
pub open(crate) spec fn input_keys<T>(s: Seq<InputItem>, g: spec_fn(Id, (u32, u32)) -> T) -> Seq<T> {
    s.map_values(|x: InputItem| g(x.id, x.size))
}

/// What `g` reads from each placed item's identifier and size.
pub open(crate) spec fn output_keys<T>(s: Seq<OutputItem>, g: spec_fn(Id, (u32, u32)) -> T) -> Seq<T> {
    s.map_values(|o: OutputItem| g(o.id, o.rect.size))
}

pub open(crate) spec fn input_ids(s: Seq<InputItem>) -> Seq<Id> {
    s.map_values(|x: InputItem| x.id)
}

pub open(crate) spec fn output_ids(s: Seq<OutputItem>) -> Seq<Id> {
    s.map_values(|o: OutputItem| o.id)
}

proof fn lemma_pass_keys<T>(items: Seq<InputItem>, bucket: (u32, u32), g: spec_fn(Id, (u32, u32)) -> T)
    ensures
        output_keys(pass(items, bucket).placed, g).to_multiset().add(
            input_keys(pass(items, bucket).unplaced, g).to_multiset(),
        ) == input_keys(items, g).to_multiset(),
    decreases items.len(),
{
    if items.len() == 0 {
        assert(output_keys(pass(items, bucket).placed, g) =~= Seq::empty());
        assert(input_keys(pass(items, bucket).unplaced, g) =~= Seq::empty());
        assert(input_keys(items, g) =~= Seq::empty());
        assert(Seq::<T>::empty().to_multiset().add(Seq::<T>::empty().to_multiset()) =~= Seq::<T>::empty().to_multiset());
    } else {
        let prev = pass(items.drop_last(), bucket);
        lemma_pass_keys(items.drop_last(), bucket, g);
        let item = items.last();
        let st = pass(items, bucket);
        assert(input_keys(items, g) =~= input_keys(items.drop_last(), g).push(g(item.id, item.size)));
        if first_fit(prev.anchors, item.size, prev.placed, bucket, 0) < prev.anchors.len() {
            let o = st.placed.last();
            assert(st.placed =~= prev.placed.push(o));
            assert(output_keys(st.placed, g) =~= output_keys(prev.placed, g).push(g(item.id, item.size)));
            assert(st.unplaced == prev.unplaced);
        } else {
            assert(st.placed == prev.placed);
            assert(input_keys(st.unplaced, g) =~= input_keys(prev.unplaced, g).push(g(item.id, item.size)));
        }
        assert(output_keys(st.placed, g).to_multiset().add(input_keys(st.unplaced, g).to_multiset())
            =~= input_keys(items, g).to_multiset());
    }
}

proof fn lemma_fill_bucket_keys<T>(
    items: Seq<InputItem>,
    cur: (u32, u32),
    max_size: (u32, u32),
    g: spec_fn(Id, (u32, u32)) -> T,
)
    ensures
        output_keys(fill_bucket(items, cur, max_size).0.items, g).to_multiset().add(
            input_keys(fill_bucket(items, cur, max_size).1, g).to_multiset(),
        ) == input_keys(items, g).to_multiset(),
    decreases growth_gap(cur, max_size),
{
    lemma_pass_keys(items, cur, g);
    let st = pass(items, cur);
    if st.unplaced.len() != 0 && cur.0 > 0 && cur.1 > 0 && can_grow(cur, max_size) {
        lemma_fill_bucket_keys(items, grow(cur, max_size), max_size, g);
    }
}

proof fn lemma_fill_buckets_keys<T>(
    items: Seq<InputItem>,
    min_size: (u32, u32),
    max_size: (u32, u32),
    g: spec_fn(Id, (u32, u32)) -> T,
)
    requires
        min_size.0 > 0,
        min_size.1 > 0,
        sizes_satisfy(items, |s: (u32, u32)| s.0 < max_size.0 && s.1 < max_size.1),
    ensures
        output_keys(all_outputs(fill_buckets(items, min_size, max_size)), g).to_multiset()
            == input_keys(items, g).to_multiset(),
    decreases items.len(),
{
    let p = |s: (u32, u32)| s.0 < max_size.0 && s.1 < max_size.1;
    let bs = fill_buckets(items, min_size, max_size);
    if items.len() == 0 {
        assert(output_keys(all_outputs(bs), g) =~= Seq::empty());
        assert(input_keys(items, g) =~= Seq::empty());
    } else {
        let (b, rest) = fill_bucket(items, min_size, max_size);
        assert(p(items[0].size));
        lemma_fill_bucket(items, min_size, max_size, p);
        lemma_fill_bucket_keys(items, min_size, max_size, g);
        lemma_fill_buckets_keys(rest, min_size, max_size, g);
        let tail = fill_buckets(rest, min_size, max_size);
        assert(bs =~= seq![b] + tail);
        assert(bs.drop_first() =~= tail);
        assert(all_outputs(bs) == b.items + all_outputs(tail));
        assert(output_keys(all_outputs(bs), g) =~= output_keys(b.items, g) + output_keys(all_outputs(tail), g));
        vstd::seq_lib::lemma_multiset_commutative(output_keys(b.items, g), output_keys(all_outputs(tail), g));
    }
}

proof fn lemma_all_outputs_unpad(bs: Seq<BucketModel>, padding: u32)
    ensures
        all_outputs(bs.map_values(|b: BucketModel| unpad_bucket(b, padding))) == all_outputs(bs).map_values(
            |o: OutputItem| unpad_item(o, padding),
        ),
    decreases bs.len(),
{
    let ubs = bs.map_values(|b: BucketModel| unpad_bucket(b, padding));
    if bs.len() == 0 {
        assert(all_outputs(bs).map_values(|o: OutputItem| unpad_item(o, padding)) =~= Seq::empty());
    } else {
        lemma_all_outputs_unpad(bs.drop_first(), padding);
        assert(ubs.drop_first() =~= bs.drop_first().map_values(|b: BucketModel| unpad_bucket(b, padding)));
        assert(all_outputs(bs).map_values(|o: OutputItem| unpad_item(o, padding)) =~= bs[0].items.map_values(
            |o: OutputItem| unpad_item(o, padding),
        ) + all_outputs(bs.drop_first()).map_values(|o: OutputItem| unpad_item(o, padding)));
    }
}

proof fn lemma_first_too_large_bounds(s: Seq<InputItem>, max_size: (u32, u32), padding: u32, i: int)
    requires
        0 <= i <= s.len(),
    ensures
        i <= first_too_large(s, max_size, padding, i) <= s.len(),
    decreases s.len() - i,
{
    if i < s.len() && !too_large(s[i], max_size, padding) {
        lemma_first_too_large_bounds(s, max_size, padding, i + 1);
    }
}

/// Without an error, every sorted and padded item meets the padded size bound.
proof fn lemma_padded_items_fit(items: Seq<InputItem>, min_size: (u32, u32), max_size: (u32, u32), padding: u32)
    requires
        pack_error(items, min_size, max_size, padding).is_none(),
    ensures
        items.len() > 0 ==> min_size.0 > 0 && min_size.1 > 0 && max_size.0 > 0 && max_size.1 > 0,
        sizes_satisfy(pad_all(sort_by_area(items), padding), padded_size_ok(max_size, padding)),
        sort_by_area(items).len() == items.len(),
        forall|j: int| 0 <= j < sort_by_area(items).len() ==> !too_large(#[trigger] sort_by_area(items)[j], max_size, padding),
{
    let sorted = sort_by_area(items);
    lemma_first_too_large_bounds(items, max_size, padding, 0);
    lemma_sort_keeps_items(items, |x: InputItem| x);
    assert(items.map_values(|x: InputItem| x) =~= items);
    assert(sorted.map_values(|x: InputItem| x) =~= sorted);
    lemma_first_too_large_none(items, max_size, padding, 0);
    assert forall|j: int| 0 <= j < sorted.len() implies !too_large(#[trigger] sorted[j], max_size, padding) by {
        assert(sorted.contains(sorted[j]));
        assert(sorted.to_multiset().count(sorted[j]) > 0);
        assert(items.contains(sorted[j]));
    }
    let padded = pad_all(sorted, padding);
    assert forall|j: int| 0 <= j < padded.len() implies padded_size_ok(max_size, padding)(
        #[trigger] padded[j].size,
    ) by {
        assert(!too_large(sorted[j], max_size, padding));
    }
    if items.len() > 0 {
        assert(!too_large(items[0], max_size, padding));
    }
}

/// Coverage: when packing succeeds, the identifiers of the placed items are
/// exactly those of the input items, each as often as it was given.
pub proof fn lemma_pack_covers_inputs(
    items: Seq<InputItem>,
    min_size: (u32, u32),
    max_size: (u32, u32),
    padding: u32,
)
    requires
        pack_error(items, min_size, max_size, padding).is_none(),
    ensures
        output_ids(all_outputs(packed(items, min_size, max_size, padding))).to_multiset()
            == input_ids(items).to_multiset(),
{
    let g = |id: Id, s: (u32, u32)| id;
    lemma_pack_keys(items, min_size, max_size, padding, g);
    assert(output_ids(all_outputs(packed(items, min_size, max_size, padding))) =~= output_keys(
        all_outputs(packed(items, min_size, max_size, padding)),
        g,
    ));
    assert(input_ids(items) =~= input_keys(items, g));
}

/// Each placed item's identifier with its size.
pub open(crate) spec fn placed_entries(s: Seq<OutputItem>) -> Seq<(Id, (u32, u32))> {
    s.map_values(|o: OutputItem| (o.id, o.rect.size))
}

/// Each input item's identifier with its size.
pub open(crate) spec fn input_entries(s: Seq<InputItem>) -> Seq<(Id, (u32, u32))> {
    s.map_values(|x: InputItem| (x.id, x.size))
}

/// Padding round trip: when packing succeeds, the placed items carry the
/// identifiers and the unpadded sizes of the input items, each pair as often
/// as it was given.
pub proof fn lemma_pack_keeps_sizes(
    items: Seq<InputItem>,
    min_size: (u32, u32),
    max_size: (u32, u32),
    padding: u32,
)
    requires
        pack_error(items, min_size, max_size, padding).is_none(),
    ensures
        placed_entries(all_outputs(packed(items, min_size, max_size, padding))).to_multiset()
            == input_entries(items).to_multiset(),
{
    let g = |id: Id, s: (u32, u32)| (id, s);
    lemma_pack_keys(items, min_size, max_size, padding, g);
    assert(placed_entries(all_outputs(packed(items, min_size, max_size, padding))) =~= output_keys(
        all_outputs(packed(items, min_size, max_size, padding)),
        g,
    ));
    assert(input_entries(items) =~= input_keys(items, g));
}

/// The placed items read through `g` are the input items read through `g`.
proof fn lemma_pack_keys<T>(
    items: Seq<InputItem>,
    min_size: (u32, u32),
    max_size: (u32, u32),
    padding: u32,
    g: spec_fn(Id, (u32, u32)) -> T,
)
    requires
        pack_error(items, min_size, max_size, padding).is_none(),
    ensures
        output_keys(all_outputs(packed(items, min_size, max_size, padding)), g).to_multiset()
            == input_keys(items, g).to_multiset(),
{
    let sorted = sort_by_area(items);
    let padded = pad_all(sorted, padding);
    let bs = fill_buckets(padded, min_size, max_size);
    lemma_padded_items_fit(items, min_size, max_size, padding);
    let unpadded_key = |id: Id, s: (u32, u32)| g(id, ((s.0 - padding) as u32, (s.1 - padding) as u32));
    assert(sizes_satisfy(padded, |s: (u32, u32)| s.0 < max_size.0 && s.1 < max_size.1)) by {
        assert forall|j: int| 0 <= j < padded.len() implies (|s: (u32, u32)| s.0 < max_size.0 && s.1 < max_size.1)(
            #[trigger] padded[j].size,
        ) by {
            assert(padded_size_ok(max_size, padding)(padded[j].size));
        }
    }
    if items.len() > 0 {
        lemma_fill_buckets_keys(padded, min_size, max_size, unpadded_key);
    } else {
        assert(sorted.len() == 0);
        assert(bs =~= Seq::empty());
        assert(all_outputs(bs) =~= Seq::empty());
        assert(output_keys(all_outputs(bs), unpadded_key) =~= Seq::empty());
        assert(input_keys(padded, unpadded_key) =~= Seq::empty());
    }
    lemma_all_outputs_unpad(bs, padding);
    assert(output_keys(all_outputs(packed(items, min_size, max_size, padding)), g) =~= output_keys(
        all_outputs(bs),
        unpadded_key,
    ));
    assert forall|j: int| 0 <= j < padded.len() implies #[trigger] input_keys(padded, unpadded_key)[j]
        == input_keys(sorted, g)[j] by {
        assert(!too_large(sorted[j], max_size, padding));
    }
    assert(input_keys(padded, unpadded_key) =~= input_keys(sorted, g));
    lemma_sort_keeps_items(items, |x: InputItem| g(x.id, x.size));
}

/// Non-overlap and containment: when packing succeeds, no two items of one
/// bucket intersect (touching edges is allowed), and every item ends
/// strictly inside its bucket on both axes.
pub proof fn lemma_pack_placements_valid(
    items: Seq<InputItem>,
    min_size: (u32, u32),
    max_size: (u32, u32),
    padding: u32,
)
    requires
        pack_error(items, min_size, max_size, padding).is_none(),
    ensures
        forall|b: int|
            0 <= b < packed(items, min_size, max_size, padding).len() ==> valid_placement(
                #[trigger] packed(items, min_size, max_size, padding)[b].items,
                packed(items, min_size, max_size, padding)[b].size,
            ),
{
    let sorted = sort_by_area(items);
    let padded = pad_all(sorted, padding);
    let bs = fill_buckets(padded, min_size, max_size);
    let p = padded_size_ok(max_size, padding);
    lemma_padded_items_fit(items, min_size, max_size, padding);
    if items.len() > 0 {
        lemma_fill_buckets(padded, min_size, max_size, padding);
    } else {
        assert(bs =~= Seq::empty());
    }
    let out = packed(items, min_size, max_size, padding);
    assert forall|b: int| 0 <= b < out.len() implies valid_placement(#[trigger] out[b].items, out[b].size) by {
        let pb = bs[b];
        assert(out[b] == unpad_bucket(pb, padding));
        assert(valid_placement(pb.items, pb.size) && placed_sizes_satisfy(pb.items, p));
        let ub = out[b].items;
        assert forall|i: int, j: int|
            0 <= i < ub.len() && 0 <= j < ub.len() && i != j implies !(#[trigger] ub[i].rect).spec_intersects(
            #[trigger] ub[j].rect) by {
            assert(p(pb.items[i].rect.size));
            assert(p(pb.items[j].rect.size));
            assert(!pb.items[i].rect.spec_intersects(pb.items[j].rect));
            lemma_shrink_keeps_disjoint(pb.items[i].rect, pb.items[j].rect, ub[i].rect, ub[j].rect);
        }
        assert forall|i: int| 0 <= i < ub.len() implies (#[trigger] ub[i].rect).strictly_inside(out[b].size) by {
            assert(p(pb.items[i].rect.size));
            assert(pb.items[i].rect.strictly_inside(pb.size));
        }
    }
}

/// Determinism: packing the same items under the same configuration gives
/// the same buckets, or the same error.
pub proof fn lemma_pack_deterministic(
    a: Seq<InputItem>,
    b: Seq<InputItem>,
    min_size: (u32, u32),
    max_size: (u32, u32),
    padding: u32,
)
    requires
        a == b,
    ensures
        pack_error(a, min_size, max_size, padding) == pack_error(b, min_size, max_size, padding),
        packed(a, min_size, max_size, padding) == packed(b, min_size, max_size, padding),
{
}

/// The larger of two sizes on each axis.
pub open(crate) spec fn size_bound(a: (u32, u32), b: (u32, u32)) -> (u32, u32) {
    (if a.0 >= b.0 { a.0 } else { b.0 }, if a.1 >= b.1 { a.1 } else { b.1 })
}

proof fn lemma_fill_bucket_size(items: Seq<InputItem>, cur: (u32, u32), max_size: (u32, u32), bound: (u32, u32))
    requires
        cur.0 <= bound.0,
        cur.1 <= bound.1,
        max_size.0 <= bound.0,
        max_size.1 <= bound.1,
    ensures
        fill_bucket(items, cur, max_size).0.size.0 <= bound.0,
        fill_bucket(items, cur, max_size).0.size.1 <= bound.1,
    decreases growth_gap(cur, max_size),
{
    let st = pass(items, cur);
    if st.unplaced.len() != 0 && cur.0 > 0 && cur.1 > 0 && can_grow(cur, max_size) {
        lemma_fill_bucket_size(items, grow(cur, max_size), max_size, bound);
    }
}

proof fn lemma_fill_buckets_size(items: Seq<InputItem>, min_size: (u32, u32), max_size: (u32, u32))
    ensures
        forall|b: int|
            0 <= b < fill_buckets(items, min_size, max_size).len() ==> (#[trigger] fill_buckets(
                items,
                min_size,
                max_size,
            )[b]).size.0 <= size_bound(min_size, max_size).0 && fill_buckets(items, min_size, max_size)[b].size.1
                <= size_bound(min_size, max_size).1,
    decreases items.len(),
{
    if items.len() > 0 {
        let (b, rest) = fill_bucket(items, min_size, max_size);
        lemma_fill_bucket_size(items, min_size, max_size, size_bound(min_size, max_size));
        if rest.len() < items.len() {
            lemma_fill_buckets_size(rest, min_size, max_size);
            let bs = fill_buckets(items, min_size, max_size);
            let tail = fill_buckets(rest, min_size, max_size);
            assert forall|k: int| 0 < k < bs.len() implies bs[k] == tail[k - 1] by {}
        }
    }
}

/// Every bucket is at most as large as the larger of the minimum and the
/// maximum size, on each axis.
pub proof fn lemma_pack_bucket_sizes(
    items: Seq<InputItem>,
    min_size: (u32, u32),
    max_size: (u32, u32),
    padding: u32,
)
    ensures
        forall|b: int|
            0 <= b < packed(items, min_size, max_size, padding).len() ==> (#[trigger] packed(
                items,
                min_size,
                max_size,
                padding,
            )[b]).size.0 <= size_bound(min_size, max_size).0 && packed(items, min_size, max_size, padding)[b].size.1
                <= size_bound(min_size, max_size).1,
{
    lemma_fill_buckets_size(pad_all(sort_by_area(items), padding), min_size, max_size);
}

} // verus!
