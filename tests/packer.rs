use tarmac::geometry::Rect;
use tarmac::id::{Id, IdGenerator};
use tarmac::packer::{PackError, SimplePacker};
use tarmac::types::{InputItem, PackOutput};

fn items(ids: &mut IdGenerator, sizes: &[(u32, u32)]) -> Vec<InputItem> {
    sizes.iter().map(|&size| InputItem::new(ids, size)).collect()
}

fn intersects(a: ((u32, u32), (u32, u32)), b: ((u32, u32), (u32, u32))) -> bool {
    let (ap, asz) = a;
    let (bp, bsz) = b;
    ap.0 < bp.0 + bsz.0 && ap.0 + asz.0 > bp.0 && ap.1 < bp.1 + bsz.1 && ap.1 + asz.1 > bp.1
}

fn placements(out: &PackOutput) -> Vec<(usize, Id, (u32, u32), (u32, u32))> {
    let mut all = Vec::new();
    for (b, bucket) in out.buckets().iter().enumerate() {
        for item in bucket.items() {
            all.push((b, item.id(), item.position(), item.size()));
        }
    }
    all
}

#[test]
fn five_items_touching_the_far_edge_get_a_bucket_each() {
    // A placed item must end strictly inside its bucket, so a 128x128 item
    // never fits a 128x128 bucket, and only one fits a 256x256 bucket.
    let mut ids = IdGenerator::new();
    let inputs = items(&mut ids, &[(128, 128); 5]);
    let packer = SimplePacker::new().max_size((256, 256));
    let out = packer.pack(&inputs).unwrap();

    assert_eq!(out.buckets().len(), 5);
    for bucket in out.buckets() {
        assert_eq!(bucket.size(), (256, 256));
        assert_eq!(bucket.items().len(), 1);
        assert_eq!(bucket.items()[0].position(), (0, 0));
        assert_eq!(bucket.items()[0].size(), (128, 128));
    }
}

#[test]
fn five_items_fill_a_two_by_two_grid_then_a_small_bucket() {
    let mut ids = IdGenerator::new();
    let inputs = items(&mut ids, &[(127, 127); 5]);
    let packer = SimplePacker::new().max_size((256, 256));
    let out = packer.pack(&inputs).unwrap();

    assert_eq!(out.buckets().len(), 2);
    let first = &out.buckets()[0];
    assert_eq!(first.size(), (256, 256));
    let positions: Vec<_> = first.items().iter().map(|i| i.position()).collect();
    assert_eq!(positions, vec![(0, 0), (127, 0), (0, 127), (127, 127)]);
    let second = &out.buckets()[1];
    assert_eq!(second.size(), (128, 128));
    assert_eq!(second.items().len(), 1);
    assert_eq!(second.items()[0].position(), (0, 0));
    assert_eq!(second.items()[0].id(), inputs[4].id());
}

#[test]
fn oversized_item_is_rejected() {
    let mut ids = IdGenerator::new();
    let inputs = items(&mut ids, &[(300, 10)]);
    let packer = SimplePacker::new().max_size((256, 256));
    assert_eq!(packer.pack(&inputs).unwrap_err(), PackError::ItemTooLarge(inputs[0].id()));
}

#[test]
fn item_as_large_as_the_maximum_is_rejected() {
    let mut ids = IdGenerator::new();
    let inputs = items(&mut ids, &[(10, 10), (256, 1), (1, 300)]);
    let packer = SimplePacker::new().max_size((256, 256));
    assert_eq!(packer.pack(&inputs).unwrap_err(), PackError::ItemTooLarge(inputs[1].id()));
}

#[test]
fn padding_can_make_an_item_too_large() {
    let mut ids = IdGenerator::new();
    let inputs = items(&mut ids, &[(250, 10)]);
    let packer = SimplePacker::new().max_size((256, 256)).padding(6);
    assert_eq!(packer.pack(&inputs).unwrap_err(), PackError::ItemTooLarge(inputs[0].id()));
    let packer = SimplePacker::new().max_size((256, 256)).padding(5);
    assert!(packer.pack(&inputs).is_ok());
}

#[test]
fn zero_minimum_size_is_rejected() {
    let mut ids = IdGenerator::new();
    let inputs = items(&mut ids, &[(4, 4)]);
    let packer = SimplePacker::new().min_size((0, 64));
    assert_eq!(packer.pack(&inputs).unwrap_err(), PackError::EmptyMinSize);
    let none: Vec<InputItem> = Vec::new();
    assert_eq!(packer.pack(&none).unwrap().buckets().len(), 0);
}

#[test]
fn empty_input_gives_no_buckets() {
    let packer = SimplePacker::new();
    let none: Vec<InputItem> = Vec::new();
    assert!(packer.pack(&none).unwrap().buckets().is_empty());
}

#[test]
fn largest_items_are_placed_first() {
    let mut ids = IdGenerator::new();
    let inputs = items(&mut ids, &[(10, 10), (50, 50), (20, 20)]);
    let out = SimplePacker::new().pack(&inputs).unwrap();
    assert_eq!(out.buckets().len(), 1);
    let placed = out.buckets()[0].items();
    assert_eq!(placed[0].id(), inputs[1].id());
    assert_eq!(placed[0].position(), (0, 0));
    assert_eq!(placed[1].id(), inputs[2].id());
    assert_eq!(placed[1].position(), (50, 0));
    assert_eq!(placed[2].id(), inputs[0].id());
    assert_eq!(placed[2].position(), (0, 50));
}

#[test]
fn equal_areas_keep_input_order() {
    let mut ids = IdGenerator::new();
    let inputs = items(&mut ids, &[(2, 8), (4, 4), (8, 2)]);
    let out = SimplePacker::new().pack(&inputs).unwrap();
    let order: Vec<Id> = out.buckets()[0].items().iter().map(|i| i.id()).collect();
    assert_eq!(order, vec![inputs[0].id(), inputs[1].id(), inputs[2].id()]);
}

#[test]
fn bucket_grows_until_everything_fits() {
    let mut ids = IdGenerator::new();
    let inputs = items(&mut ids, &[(100, 100), (100, 100), (100, 100)]);
    let out = SimplePacker::new().pack(&inputs).unwrap();
    assert_eq!(out.buckets().len(), 1);
    assert_eq!(out.buckets()[0].size(), (256, 256));
    assert_eq!(out.buckets()[0].items().len(), 3);
}

fn mixed_inputs(ids: &mut IdGenerator) -> Vec<InputItem> {
    let mut sizes = Vec::new();
    for i in 0..40u32 {
        sizes.push((1 + (i * 37) % 120, 1 + (i * 53) % 90));
    }
    items(ids, &sizes)
}

#[test]
fn every_input_is_placed_exactly_once_with_its_size() {
    let mut ids = IdGenerator::new();
    let inputs = mixed_inputs(&mut ids);
    let out = SimplePacker::new().max_size((256, 256)).padding(2).pack(&inputs).unwrap();
    let placed = placements(&out);
    assert_eq!(placed.len(), inputs.len());
    for input in &inputs {
        let matching: Vec<_> = placed.iter().filter(|p| p.1 == input.id()).collect();
        assert_eq!(matching.len(), 1);
        assert_eq!(matching[0].3, input.size());
    }
}

#[test]
fn placed_items_do_not_overlap_and_stay_inside() {
    let mut ids = IdGenerator::new();
    let inputs = mixed_inputs(&mut ids);
    let out = SimplePacker::new().max_size((256, 256)).padding(2).pack(&inputs).unwrap();
    for bucket in out.buckets() {
        let size = bucket.size();
        let list = bucket.items();
        for (i, a) in list.iter().enumerate() {
            let max = a.max();
            assert!(max.0 < size.0 && max.1 < size.1);
            for (j, b) in list.iter().enumerate() {
                if i != j {
                    assert!(!intersects((a.min(), a.size()), (b.min(), b.size())));
                }
            }
        }
    }
}

#[test]
fn touching_items_are_allowed() {
    let mut ids = IdGenerator::new();
    let inputs = items(&mut ids, &[(10, 10), (10, 10)]);
    let out = SimplePacker::new().pack(&inputs).unwrap();
    let placed = out.buckets()[0].items();
    assert_eq!(placed[0].max(), (10, 10));
    assert_eq!(placed[1].min(), (10, 0));
}

#[test]
fn packing_twice_gives_the_same_result() {
    let mut ids = IdGenerator::new();
    let inputs = mixed_inputs(&mut ids);
    let packer = SimplePacker::new().max_size((256, 256)).padding(1);
    let first = placements(&packer.pack(&inputs).unwrap());
    let second = placements(&packer.pack(&inputs).unwrap());
    assert_eq!(first, second);
}

#[test]
fn identifiers_count_up_from_one_generator() {
    let mut ids = IdGenerator::new();
    let a = Id::new(&mut ids);
    let b = ids.next_id();
    let c = InputItem::new(&mut ids, (1, 2));
    assert_ne!(a, b);
    assert_ne!(b, c.id());
    assert_eq!(c.size(), (1, 2));
}

#[test]
fn default_packer_matches_new() {
    let mut ids = IdGenerator::new();
    let inputs = items(&mut ids, &[(200, 100)]);
    let a = placements(&SimplePacker::default().pack(&inputs).unwrap());
    let b = placements(&SimplePacker::new().pack(&inputs).unwrap());
    assert_eq!(a, b);
    let out = SimplePacker::default().pack(&inputs).unwrap();
    assert_eq!(out.buckets()[0].size(), (256, 256));
}

#[test]
fn empty_rectangles_intersect_nothing() {
    let big = Rect { pos: (0, 0), size: (10, 10) };
    let thin = Rect { pos: (5, 5), size: (0, 1) };
    let flat = Rect { pos: (5, 5), size: (1, 0) };
    assert!(!big.intersects(&thin));
    assert!(!thin.intersects(&big));
    assert!(!big.intersects(&flat));
    let inside = Rect { pos: (5, 5), size: (1, 1) };
    assert!(big.intersects(&inside));
    let touching = Rect { pos: (10, 0), size: (3, 3) };
    assert!(!big.intersects(&touching));
}

#[test]
fn identifiers_are_never_zero() {
    let mut ids = IdGenerator::new();
    assert!(Id::new(&mut ids).as_u64() >= 1);
    assert!(InputItem::new(&mut ids, (1, 1)).id().as_u64() >= 1);
}
