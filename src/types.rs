//! The values that go into and come out of the packer.

use vstd::prelude::*;

use crate::geometry::Rect;
use crate::id::{Id, IdGenerator};

verus! {

/// An input to the packer: a size and a generated identifier that callers
/// use to associate the results with their own objects.
#[derive(Clone, Copy, Debug)]
pub struct InputItem {
    pub(crate) id: Id,
    pub(crate) size: (u32, u32),
}

impl InputItem {
    pub open(crate) spec fn spec_id(&self) -> Id {
        self.id
    }

    pub open(crate) spec fn spec_size(&self) -> (u32, u32) {
        self.size
    }

    pub fn new(ids: &mut IdGenerator, size: (u32, u32)) -> (r: InputItem)
        requires
            old(ids).next_value() < u64::MAX,
        ensures
            r.spec_size() == size,
            r.spec_id().value() == old(ids).next_value(),
            r.spec_id().value() >= 1,
            final(ids).next_value() == old(ids).next_value() + 1,
    {
        InputItem { id: Id::new(ids), size }
    }

    pub fn size(&self) -> (r: (u32, u32))
        ensures
            r == self.spec_size(),
    {
        self.size
    }

    pub fn id(&self) -> (r: Id)
        ensures
            r == self.spec_id(),
    {
        self.id
    }

    pub open(crate) spec fn spec_area(&self) -> int {
        self.size.0 * self.size.1
    }

    pub fn area(&self) -> (r: u64)
        ensures
            r == self.spec_area(),
    {
        let w = self.size.0 as u64;
        let h = self.size.1 as u64;
        assert(w * h <= u32::MAX * u32::MAX) by (nonlinear_arith)
            requires
                w <= u32::MAX,
                h <= u32::MAX,
        ;
        w * h
    }
}

/// An item placed by the packer, carrying the identifier of its input.
#[derive(Clone, Copy, Debug)]
pub struct OutputItem {
    pub(crate) id: Id,
    pub(crate) rect: Rect,
}

impl OutputItem {
    pub open(crate) spec fn spec_id(&self) -> Id {
        self.id
    }

    pub open(crate) spec fn spec_rect(&self) -> Rect {
        self.rect
    }

    pub fn id(&self) -> (r: Id)
        ensures
            r == self.spec_id(),
    {
        self.id
    }

    pub fn position(&self) -> (r: (u32, u32))
        ensures
            r == self.spec_rect().pos,
    {
        self.rect.pos
    }

    pub fn size(&self) -> (r: (u32, u32))
        ensures
            r == self.spec_rect().size,
    {
        self.rect.size
    }

    pub fn min(&self) -> (r: (u32, u32))
        ensures
            r == self.spec_rect().pos,
    {
        self.rect.pos
    }

    pub fn max(&self) -> (r: (u32, u32))
        requires
            self.spec_rect().max_x() <= u32::MAX,
            self.spec_rect().max_y() <= u32::MAX,
        ensures
            r.0 == self.spec_rect().max_x(),
            r.1 == self.spec_rect().max_y(),
    {
        self.rect.max()
    }
}

/// The mathematical value of a bucket: its size and the items placed in it.
pub struct BucketModel {
    pub size: (u32, u32),
    pub items: Seq<OutputItem>,
}

/// One fixed-size container holding items that were packed together.
#[derive(Debug)]
pub struct Bucket {
    pub(crate) size: (u32, u32),
    pub(crate) items: Vec<OutputItem>,
}

impl View for Bucket {
    type V = BucketModel;

    open(crate) spec fn view(&self) -> BucketModel {
        BucketModel { size: self.size, items: self.items@ }
    }
}

impl Bucket {
    pub fn size(&self) -> (r: (u32, u32))
        ensures
            r == self@.size,
    {
        self.size
    }

    pub fn items(&self) -> (r: &[OutputItem])
        ensures
            r@ == self@.items,
    {
        self.items.as_slice()
    }
}

/// The result of a packing run: the buckets in the order they were made.
#[derive(Debug)]
pub struct PackOutput {
    pub(crate) buckets: Vec<Bucket>,
}

impl View for PackOutput {
    type V = Seq<BucketModel>;

    open(crate) spec fn view(&self) -> Seq<BucketModel> {
        self.buckets@.map_values(|b: Bucket| b@)
    }
}

impl PackOutput {
    pub fn buckets(&self) -> (r: &[Bucket])
        ensures
            r@.map_values(|b: Bucket| b@) == self@,
    {
        self.buckets.as_slice()
    }
}

} // verus!
