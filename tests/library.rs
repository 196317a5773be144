use raytrace::bitmap::Bitmap;
use raytrace::hit::{nearest, Hit};
use raytrace::object::{nearest_hit, WorldObject};
use raytrace::render::{Collector, ColumnQueue};

/// An object that answers every ray with the same hit, or none.
struct Fixed {
    depth: Option<u64>,
    name: &'static str,
}

impl WorldObject<u32, &'static str> for Fixed {
    fn intersect(&self, _ray: &u32) -> Option<Hit<&'static str>> {
        self.depth.map(|d| Hit { depth: d, surface: self.name })
    }

    fn hit_of(&self, ray: &u32) -> Option<Hit<&'static str>> {
        self.intersect(ray)
    }
}

fn hit(depth: u64, name: &'static str) -> Option<Hit<&'static str>> {
    Some(Hit { depth, surface: name })
}

fn key(distance: f64) -> u64 {
    (distance + 0.0).to_bits()
}

#[test]
fn new_bitmap_is_transparent() {
    let b = Bitmap::new(3, 2);
    assert_eq!(b.width(), 3);
    assert_eq!(b.height(), 2);
    for x in 0..3 {
        for y in 0..2 {
            assert_eq!(b.pixel(x, y), [0, 0, 0, 0]);
        }
    }
    assert_eq!(b.rgba_bytes(), vec![0u8; 24]);
}

#[test]
fn set_pixel_writes_inside_the_grid() {
    let mut b = Bitmap::new(3, 2);
    b.set_pixel(2, 1, [1, 2, 3, 4]);
    assert_eq!(b.pixel(2, 1), [1, 2, 3, 4]);
    assert_eq!(b.pixel(1, 1), [0, 0, 0, 0]);
    assert_eq!(b.pixel(2, 0), [0, 0, 0, 0]);
}

#[test]
fn set_pixel_outside_the_grid_is_ignored() {
    let mut b = Bitmap::new(2, 2);
    b.set_pixel(2, 0, [9, 9, 9, 9]);
    b.set_pixel(0, 2, [9, 9, 9, 9]);
    b.set_pixel(u32::MAX, u32::MAX, [9, 9, 9, 9]);
    assert_eq!(b.rgba_bytes(), vec![0u8; 16]);
}

#[test]
fn rgba_bytes_are_row_major() {
    let mut b = Bitmap::new(2, 2);
    b.set_pixel(1, 0, [1, 2, 3, 4]);
    b.set_pixel(0, 1, [5, 6, 7, 8]);
    assert_eq!(
        b.rgba_bytes(),
        vec![0, 0, 0, 0, 1, 2, 3, 4, 5, 6, 7, 8, 0, 0, 0, 0]
    );
}

#[test]
fn empty_bitmap_has_no_bytes() {
    let b = Bitmap::new(0, 5);
    assert_eq!(b.rgba_bytes(), Vec::<u8>::new());
}

#[test]
fn nearest_of_nothing_is_none() {
    assert!(nearest::<u8>(vec![]).is_none());
    assert!(nearest::<u8>(vec![None, None]).is_none());
}

#[test]
fn nearest_takes_the_smallest_depth() {
    let r = nearest(vec![hit(7, "a"), None, hit(3, "b"), hit(5, "c")]).unwrap();
    assert_eq!(r.depth, 3);
    assert_eq!(r.surface, "b");
}

#[test]
fn nearest_keeps_the_first_of_equal_depths() {
    let r = nearest(vec![None, hit(4, "a"), hit(4, "b"), hit(9, "c")]).unwrap();
    assert_eq!(r.surface, "a");
}

#[test]
fn ground_loses_a_tie_with_an_object() {
    let objects = vec![Fixed { depth: Some(6), name: "sphere" }];
    let r = nearest_hit(&objects, &0, hit(6, "ground")).unwrap();
    assert_eq!(r.surface, "sphere");
}

#[test]
fn ground_wins_when_strictly_closer() {
    let objects = vec![
        Fixed { depth: Some(6), name: "far" },
        Fixed { depth: None, name: "missed" },
    ];
    let r = nearest_hit(&objects, &0, hit(2, "ground")).unwrap();
    assert_eq!(r.surface, "ground");
}

#[test]
fn nothing_hit_gives_none() {
    let objects = vec![Fixed { depth: None, name: "missed" }];
    assert!(nearest_hit(&objects, &0, None).is_none());
}

#[test]
fn overlapping_spheres_give_the_smaller_distance() {
    // Two overlapping spheres on the ray: one entered at 4.5, the other at 4.0.
    let objects = vec![
        Fixed { depth: Some(key(4.5)), name: "first" },
        Fixed { depth: Some(key(4.0)), name: "second" },
    ];
    let r = nearest_hit(&objects, &0, None).unwrap();
    assert_eq!(f64::from_bits(r.depth), 4.0);
    assert_eq!(r.surface, "second");
}

#[test]
fn distance_keys_keep_the_order_of_distances() {
    let ds = [0.0, 1e-9, 0.5, 1.0, 4.0, 4.5, 1e300];
    for i in 0..ds.len() {
        for j in 0..ds.len() {
            assert_eq!(ds[i] < ds[j], key(ds[i]) < key(ds[j]));
        }
    }
    assert_eq!(key(-0.0), key(0.0));
}

#[test]
fn queue_hands_out_every_column_once() {
    let mut q = ColumnQueue::new(3);
    assert_eq!(q.remaining(), 3);
    assert_eq!(q.pop(), Some(2));
    assert_eq!(q.pop(), Some(1));
    assert_eq!(q.pop(), Some(0));
    assert_eq!(q.pop(), None);
    assert_eq!(q.pop(), None);
    assert_eq!(q.remaining(), 0);
}

#[test]
fn empty_queue_for_zero_width() {
    let mut q = ColumnQueue::new(0);
    assert_eq!(q.pop(), None);
}

#[test]
fn collector_writes_columns_by_index() {
    let mut c = Collector::new(2, 3);
    assert!(!c.is_done());
    c.accept(1, &vec![[1, 1, 1, 1], [2, 2, 2, 2], [3, 3, 3, 3]]);
    assert_eq!(c.received(), 1);
    assert!(!c.is_done());
    c.accept(0, &vec![[4, 4, 4, 4], [5, 5, 5, 5], [6, 6, 6, 6]]);
    assert_eq!(c.received(), 2);
    assert_eq!(c.total(), 2);
    assert!(c.is_done());
    let b = c.into_bitmap();
    assert_eq!(b.pixel(1, 0), [1, 1, 1, 1]);
    assert_eq!(b.pixel(1, 2), [3, 3, 3, 3]);
    assert_eq!(b.pixel(0, 1), [5, 5, 5, 5]);
}

#[test]
fn collection_order_does_not_change_the_image() {
    let columns: Vec<Vec<[u8; 4]>> = (0..4u8)
        .map(|x| (0..3u8).map(|y| [x, y, x + y, 255]).collect())
        .collect();
    let orders: [[u32; 4]; 3] = [[0, 1, 2, 3], [3, 2, 1, 0], [2, 0, 3, 1]];
    let mut images = Vec::new();
    for order in orders.iter() {
        let mut c = Collector::new(4, 3);
        for &x in order.iter() {
            c.accept(x, &columns[x as usize]);
        }
        assert!(c.is_done());
        images.push(c.into_bitmap().rgba_bytes());
    }
    assert_eq!(images[0], images[1]);
    assert_eq!(images[0], images[2]);
}

#[test]
fn column_outside_the_image_is_dropped_but_counted() {
    let mut c = Collector::new(1, 1);
    c.accept(5, &vec![[7, 7, 7, 7]]);
    assert!(c.is_done());
    assert_eq!(c.into_bitmap().rgba_bytes(), vec![0, 0, 0, 0]);
}
