//! Building spritesheets: the source images are packed into buckets, each
//! bucket becomes one image with every source blitted at its place, and the
//! result is alpha-bled.

use vstd::prelude::*;

use crate::alpha_bleed::{alpha_bleed, bled_from, visible};
use crate::config::GroupSpritesheetConfig;
use crate::geometry::Rect;
use crate::id::{id_with_value, lemma_id_value, IdGenerator};
use crate::image::{lemma_offsets, Image, ImageModel, Pixel};
use crate::pack_laws::{
    all_outputs, input_entries, lemma_pack_bucket_sizes, lemma_pack_keeps_sizes, lemma_pack_placements_valid,
    placed_entries, size_bound,
};
use crate::packer::{pack_error, packed, valid_placement, PackError, SimplePacker};
use crate::types::{BucketModel, InputItem, OutputItem};

verus! {

broadcast use vstd::seq_lib::group_to_multiset_ensures;

/// The part of a spritesheet that holds one source image: from `min`
/// inclusive to `max` exclusive.
#[derive(Clone, Copy, Debug)]
pub struct ImageSlice {
    min: (u32, u32),
    max: (u32, u32),
}

impl ImageSlice {
    pub closed spec fn spec_min(&self) -> (u32, u32) {
        self.min
    }

    pub closed spec fn spec_max(&self) -> (u32, u32) {
        self.max
    }

    pub fn new(min: (u32, u32), max: (u32, u32)) -> (r: ImageSlice)
        ensures
            r.spec_min() == min,
            r.spec_max() == max,
    {
        ImageSlice { min, max }
    }

    pub fn min(&self) -> (r: (u32, u32))
        ensures
            r == self.spec_min(),
    {
        self.min
    }

    pub fn max(&self) -> (r: (u32, u32))
        ensures
            r == self.spec_max(),
    {
        self.max
    }

    pub fn size(&self) -> (r: (u32, u32))
        requires
            self.spec_min().0 <= self.spec_max().0,
            self.spec_min().1 <= self.spec_max().1,
        ensures
            r.0 == self.spec_max().0 - self.spec_min().0,
            r.1 == self.spec_max().1 - self.spec_min().1,
    {
        (self.max.0 - self.min.0, self.max.1 - self.min.1)
    }
}

/// One finished atlas: its pixels, and for each source image placed in it the
/// index of that image among the sources together with its slice.
#[derive(Debug)]
pub struct Spritesheet {
    pub image: Image,
    pub slices: Vec<(usize, ImageSlice)>,
}

impl Spritesheet {
    pub fn slices(&self) -> (r: &[(usize, ImageSlice)])
        ensures
            r@ == self.slices@,
    {
        self.slices.as_slice()
    }
}

/// The packer input made for each source image: its size, and the
/// identifier numbered `first` plus its index.
pub open(crate) spec fn source_items(images: Seq<Image>, first: u64) -> Seq<InputItem> {
    Seq::new(images.len(), |k: int| InputItem { id: id_with_value((first + k) as u64), size: images[k]@.size })
}

pub open(crate) spec fn in_rect(r: Rect, x: int, y: int) -> bool {
    r.pos.0 <= x < r.max_x() && r.pos.1 <= y < r.max_y()
}

/// A slice entry names the source image of the placed item and covers
/// exactly its rectangle.
pub open(crate) spec fn slice_matches(entry: (usize, ImageSlice), o: OutputItem, images: Seq<Image>, first: u64) -> bool {
    &&& entry.0 < images.len()
    &&& o.id == id_with_value((first + entry.0) as u64)
    &&& o.rect.size == images[entry.0 as int]@.size
    &&& entry.1.spec_min() == o.rect.pos
    &&& entry.1.spec_max().0 == o.rect.max_x()
    &&& entry.1.spec_max().1 == o.rect.max_y()
}

/// The pixel at `(x, y)` of the sheet shows the source placed at `pos`: the
/// same alpha, and the same colour where the source pixel is visible.
pub open(crate) spec fn shows_source(sheet: ImageModel, x: int, y: int, source: ImageModel, pos: (u32, u32)) -> bool {
    let p = source.pixel(x - pos.0, y - pos.1);
    &&& sheet.pixel(x, y).a == p.a
    &&& p.a != 0 ==> sheet.pixel(x, y) == p
}

/// `c` is the bucket's sources composed before bleeding: a canvas of the
/// bucket's size, transparent black except where a source was blitted at its
/// place.
pub open(crate) spec fn is_composite(
    c: ImageModel,
    slices: Seq<(usize, ImageSlice)>,
    bucket: BucketModel,
    images: Seq<Image>,
) -> bool {
    &&& c.well_formed()
    &&& c.size == bucket.size
    &&& slices.len() == bucket.items.len()
    &&& forall|j: int, x: int, y: int|
        0 <= j < slices.len() && #[trigger] in_rect(bucket.items[j].rect, x, y) ==> c.pixel(x, y)
            == images[slices[j].0 as int]@.pixel(x - bucket.items[j].rect.pos.0, y - bucket.items[j].rect.pos.1)
    &&& forall|x: int, y: int|
        c.in_bounds(x, y) && (forall|j: int| 0 <= j < slices.len() ==> !in_rect(bucket.items[j].rect, x, y))
            ==> #[trigger] c.pixel(x, y) == (Pixel { r: 0, g: 0, b: 0, a: 0 })
}

/// A finished sheet for a bucket: the bled composite of its sources, with
/// the bucket's size, one slice per placed item, each source shown at its
/// place, and nothing visible elsewhere.
pub open(crate) spec fn sheet_matches(
    sheet: ImageModel,
    slices: Seq<(usize, ImageSlice)>,
    bucket: BucketModel,
    images: Seq<Image>,
    first: u64,
) -> bool {
    &&& exists|c: ImageModel| is_composite(c, slices, bucket, images) && bled_from(c, sheet)
    &&& sheet.well_formed()
    &&& sheet.size == bucket.size
    &&& slices.len() == bucket.items.len()
    &&& forall|j: int| 0 <= j < slices.len() ==> slice_matches(#[trigger] slices[j], bucket.items[j], images, first)
    &&& forall|j: int, x: int, y: int|
        0 <= j < slices.len() && #[trigger] in_rect(bucket.items[j].rect, x, y) ==> shows_source(
            sheet,
            x,
            y,
            images[slices[j].0 as int]@,
            bucket.items[j].rect.pos,
        )
    &&& forall|x: int, y: int|
        sheet.in_bounds(x, y) && (forall|j: int| 0 <= j < slices.len() ==> !in_rect(bucket.items[j].rect, x, y))
            ==> (#[trigger] sheet.pixel(x, y)).a == 0
}

proof fn lemma_all_outputs_contains(bs: Seq<BucketModel>, b: int, j: int)
    requires
        0 <= b < bs.len(),
        0 <= j < bs[b].items.len(),
    ensures
        all_outputs(bs).contains(bs[b].items[j]),
    decreases b,
{
    let ao = all_outputs(bs);
    if b == 0 {
        assert(ao[j] == bs[0].items[j]);
    } else {
        lemma_all_outputs_contains(bs.drop_first(), b - 1, j);
        assert(bs.drop_first()[b - 1] == bs[b]);
        let rest = all_outputs(bs.drop_first());
        let i = choose|i: int| 0 <= i < rest.len() && rest[i] == bs[b].items[j];
        assert(ao[bs[0].items.len() + i] == rest[i]);
    }
}

/// Every placed item has the identifier and the size of some input item.
proof fn lemma_placed_from_input(
    items: Seq<InputItem>,
    max_size: (u32, u32),
    b: int,
    j: int,
) -> (k: int)
    requires
        pack_error(items, (128, 128), max_size, 1).is_none(),
        0 <= b < packed(items, (128, 128), max_size, 1).len(),
        0 <= j < packed(items, (128, 128), max_size, 1)[b].items.len(),
    ensures
        0 <= k < items.len(),
        items[k].id == packed(items, (128, 128), max_size, 1)[b].items[j].id,
        items[k].size == packed(items, (128, 128), max_size, 1)[b].items[j].rect.size,
{
    let bs = packed(items, (128, 128), max_size, 1);
    let o = bs[b].items[j];
    lemma_pack_keeps_sizes(items, (128, 128), max_size, 1);
    lemma_all_outputs_contains(bs, b, j);
    let ao = all_outputs(bs);
    let i = choose|i: int| 0 <= i < ao.len() && ao[i] == o;
    let key = (o.id, o.rect.size);
    assert(placed_entries(ao)[i] == key);
    assert(placed_entries(ao).contains(key));
    assert(input_entries(items).to_multiset().count(key) > 0);
    assert(input_entries(items).contains(key));
    let k = choose|k: int| 0 <= k < input_entries(items).len() && input_entries(items)[k] == key;
    k
}

/// Packs the source images into spritesheets: each image becomes a packer
/// item with a fresh identifier, the items are packed with the group's
/// maximum size and one pixel of padding, every bucket becomes an image with
/// the sources blitted at their places, and that image is alpha-bled.
pub fn pack_images(images: &Vec<Image>, ids: &mut IdGenerator, config: &GroupSpritesheetConfig) -> (r: Result<
    Vec<Spritesheet>,
    PackError,
>)
    requires
        old(ids).next_value() + images@.len() < u64::MAX,
        forall|k: int| 0 <= k < images@.len() ==> (#[trigger] images@[k])@.well_formed(),
        4 * (size_bound((128, 128), config.max_size).0 * size_bound((128, 128), config.max_size).1) <= usize::MAX,
    ensures
        final(ids).next_value() == old(ids).next_value() + images@.len(),
        r.is_err() <==> pack_error(
            source_items(images@, old(ids).next_value()),
            (128, 128),
            config.max_size,
            1,
        ).is_some(),
        r matches Err(e) ==> Some(e) == pack_error(
            source_items(images@, old(ids).next_value()),
            (128, 128),
            config.max_size,
            1,
        ),
        r matches Ok(sheets) ==> {
            let bs = packed(source_items(images@, old(ids).next_value()), (128, 128), config.max_size, 1);
            &&& sheets@.len() == bs.len()
            &&& forall|b: int|
                0 <= b < bs.len() ==> sheet_matches(
                    (#[trigger] sheets@[b]).image@,
                    sheets@[b].slices@,
                    bs[b],
                    images@,
                    old(ids).next_value(),
                )
        },
{
    let image_count = images.len();
    let ghost first = ids.next_value();
    let ghost items = source_items(images@, first);
    let mut inputs: Vec<InputItem> = Vec::new();
    let mut k: usize = 0;
    while k < images.len()
        invariant
            0 <= k <= images@.len(),
            first + images@.len() < u64::MAX,
            items == source_items(images@, first),
            ids.next_value() == first + k,
            inputs@ == items.subrange(0, k as int),
        decreases images@.len() - k,
    {
        let item = InputItem::new(ids, images[k].size());
        proof {
            lemma_id_value(item.id, (first + k) as u64);
        }
        inputs.push(item);
        proof {
            assert(inputs@ =~= items.subrange(0, k + 1));
        }
        k = k + 1;
    }
    proof {
        assert(inputs@ =~= items);
    }
    let packer = SimplePacker::new().max_size(config.max_size).padding(1);
    let out = match packer.pack(inputs.as_slice()) {
        Ok(out) => out,
        Err(e) => {
            return Err(e);
        },
    };
    let ghost bs = packed(items, (128, 128), config.max_size, 1);
    proof {
        lemma_pack_placements_valid(items, (128, 128), config.max_size, 1);
        lemma_pack_bucket_sizes(items, (128, 128), config.max_size, 1);
    }
    let mut sheets: Vec<Spritesheet> = Vec::new();
    let mut b: usize = 0;
    while b < out.buckets.len()
        invariant
            0 <= b <= out.buckets@.len(),
            out@ == bs,
            bs == packed(items, (128, 128), config.max_size, 1),
            pack_error(items, (128, 128), config.max_size, 1).is_none(),
            items == source_items(images@, first),
            inputs@ == items,
            first + images@.len() < u64::MAX,
            image_count == images@.len(),
            forall|k: int| 0 <= k < images@.len() ==> (#[trigger] images@[k])@.well_formed(),
            4 * (size_bound((128, 128), config.max_size).0 * size_bound((128, 128), config.max_size).1) <= usize::MAX,
            forall|c: int| 0 <= c < bs.len() ==> valid_placement(#[trigger] bs[c].items, bs[c].size),
            forall|c: int|
                0 <= c < bs.len() ==> (#[trigger] bs[c]).size.0 <= size_bound((128, 128), config.max_size).0
                    && bs[c].size.1 <= size_bound((128, 128), config.max_size).1,
            sheets@.len() == b,
            forall|c: int|
                0 <= c < b ==> sheet_matches(
                    (#[trigger] sheets@[c]).image@,
                    sheets@[c].slices@,
                    bs[c],
                    images@,
                    first,
                ),
        decreases out.buckets@.len() - b,
    {
        let bucket = &out.buckets[b];
        let ghost bm = bs[b as int];
        assert(bucket@ == bm);
        let (bw, bh) = bucket.size;
        let ghost bound = size_bound((128, 128), config.max_size);
        assert(4 * (bw * bh) <= usize::MAX) by (nonlinear_arith)
            requires
                bw <= bound.0,
                bh <= bound.1,
                4 * (bound.0 * bound.1) <= usize::MAX,
        ;
        let mut canvas = Image::new_empty_rgba8(bucket.size);
        proof {
            assert forall|x: int, y: int| canvas@.in_bounds(x, y) implies #[trigger] canvas@.pixel(x, y) == Pixel {
                r: 0,
                g: 0,
                b: 0,
                a: 0,
            } by {
                lemma_offsets(canvas@, x, y, x, y);
            }
        }
        let mut slices: Vec<(usize, ImageSlice)> = Vec::new();
        let mut j: usize = 0;
        while j < bucket.items.len()
            invariant
                0 <= j <= bucket.items@.len(),
                bucket@ == bm,
                bm == bs[b as int],
                0 <= b < bs.len(),
                bs == packed(items, (128, 128), config.max_size, 1),
                pack_error(items, (128, 128), config.max_size, 1).is_none(),
                items == source_items(images@, first),
                inputs@ == items,
                first + images@.len() < u64::MAX,
                image_count == images@.len(),
                forall|k: int| 0 <= k < images@.len() ==> (#[trigger] images@[k])@.well_formed(),
                valid_placement(bm.items, bm.size),
                canvas@.well_formed(),
                canvas@.size == bm.size,
                slices@.len() == j,
                forall|m: int| 0 <= m < j ==> slice_matches(#[trigger] slices@[m], bm.items[m], images@, first),
                forall|m: int, x: int, y: int|
                    0 <= m < j && #[trigger] in_rect(bm.items[m].rect, x, y) ==> canvas@.pixel(x, y)
                        == images@[slices@[m].0 as int]@.pixel(x - bm.items[m].rect.pos.0, y - bm.items[m].rect.pos.1),
                forall|x: int, y: int|
                    canvas@.in_bounds(x, y) && (forall|m: int| 0 <= m < j ==> !in_rect(bm.items[m].rect, x, y))
                        ==> #[trigger] canvas@.pixel(x, y) == (Pixel { r: 0, g: 0, b: 0, a: 0 }),
            decreases bucket.items@.len() - j,
        {
            let o = bucket.items[j];
            let ghost src = lemma_placed_from_input(items, config.max_size, b as int, j as int);
            proof {
                assert(items[src].id == id_with_value((first + src) as u64));
                assert(o == bm.items[j as int]);
                assert(o.id == items[src].id);
                lemma_id_value(o.id, (first + src) as u64);
                assert(inputs@[0] == items[0]);
                assert(items[0].id == id_with_value((first + 0) as u64));
                lemma_id_value(inputs@[0].id, first);
                assert(o.rect.strictly_inside(bm.size));
            }
            let index = (o.id.as_u64() - inputs[0].id.as_u64()) as usize;
            assert(index == src);
            let ghost before = canvas@;
            canvas.blit(&images[index], o.rect.pos);
            let max = o.max();
            let ghost prev_slices = slices@;
            slices.push((index, ImageSlice::new(o.rect.pos, max)));
            proof {
                assert(slice_matches(slices@[j as int], bm.items[j as int], images@, first));
                assert forall|m: int, x: int, y: int|
                    0 <= m < j + 1 && #[trigger] in_rect(bm.items[m].rect, x, y) implies canvas@.pixel(x, y)
                    == images@[slices@[m].0 as int]@.pixel(x - bm.items[m].rect.pos.0, y - bm.items[m].rect.pos.1) by {
                    if m < j {
                        assert(!bm.items[m].rect.spec_intersects(bm.items[j as int].rect));
                        assert(slices@[m] == prev_slices[m]);
                    }
                }
            }
            j = j + 1;
        }
        let ghost composed = canvas@;
        assert(is_composite(composed, slices@, bm, images@));
        alpha_bleed(&mut canvas);
        let sheet = Spritesheet { image: canvas, slices };
        proof {
            assert(bled_from(composed, sheet.image@));
            assert(sheet_matches(sheet.image@, sheet.slices@, bm, images@, first));
        }
        sheets.push(sheet);
        b = b + 1;
    }
    Ok(sheets)
}

} // verus!
