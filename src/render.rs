use vstd::prelude::*;
use crate::bitmap::{Bitmap, Rgba, pixel_index, clear_pixel, lemma_index_in_grid};

verus! {

/// The columns `0..width`, in order.
pub open spec fn all_columns(width: nat) -> Seq<u32> {
    Seq::new(width, |i: int| i as u32)
}

/// The work queue of a render: the column indices still to be computed.
/// Workers pop from it one column at a time until it is empty.
pub struct ColumnQueue {
    columns: Vec<u32>,
}

impl View for ColumnQueue {
    type V = Seq<u32>;

    closed spec fn view(&self) -> Seq<u32> {
        self.columns@
    }
}

impl ColumnQueue {
    /// A queue holding every column of an image `width` wide.
    pub fn new(width: u32) -> (r: ColumnQueue)
        ensures
            r@ == all_columns(width as nat),
    {
        let mut columns: Vec<u32> = Vec::new();
        let mut x: u32 = 0;
        while x < width
            invariant
                x <= width,
                columns@ == all_columns(x as nat),
            decreases width - x,
        {
            columns.push(x);
            assert(columns@ =~= all_columns((x + 1) as nat));
            x = x + 1;
        }
        ColumnQueue { columns }
    }

    /// Hands out the next column, the last one of the queue; `None` once the
    /// queue is empty, which tells the worker to stop.
    pub fn pop(&mut self) -> (r: Option<u32>)
        ensures
            old(self)@.len() == 0 ==> r is None && final(self)@ == old(self)@,
            old(self)@.len() > 0 ==> r == Some(old(self)@.last()) && final(self)@
                == old(self)@.drop_last(),
    {
        self.columns.pop()
    }

    /// How many columns are still to be handed out.
    pub fn remaining(&self) -> (r: usize)
        ensures
            r == self@.len(),
    {
        self.columns.len()
    }
}

/// The grid after column `x` has been written with `colors`, top to bottom.
/// Writes outside the grid are dropped.
pub open spec fn with_column(
    width: nat,
    height: nat,
    pixels: Seq<Rgba>,
    x: int,
    colors: Seq<Rgba>,
) -> Seq<Rgba> {
    Seq::new(
        pixels.len(),
        |i: int|
            if 0 <= x < width && i % (width as int) == x && i / (width as int) < height {
                colors[i / (width as int)]
            } else {
                pixels[i]
            },
    )
}

/// The collecting side of a render: takes each finished column once, writes
/// it into the image at its column index, whatever order the columns arrive
/// in, and counts them until all `width` have come.
pub struct Collector {
    bitmap: Bitmap,
    received: u32,
}

impl Collector {
    pub closed spec fn image(&self) -> Bitmap {
        self.bitmap
    }

    pub closed spec fn spec_received(&self) -> nat {
        self.received as nat
    }

    pub open spec fn wf(&self) -> bool {
        &&& self.image().wf()
        &&& self.spec_received() <= self.image().spec_width()
    }

    /// All columns have come in.
    pub open spec fn spec_done(&self) -> bool {
        self.spec_received() == self.image().spec_width()
    }

    /// A collector for a `width` x `height` image, with every pixel
    /// transparent black and no column received.
    pub fn new(width: u32, height: u32) -> (r: Collector)
        requires
            width as int * height as int <= u32::MAX,
        ensures
            r.wf(),
            r.spec_received() == 0,
            r.image().spec_width() == width,
            r.image().spec_height() == height,
            r.image().pixels() == Seq::new((width * height) as nat, |i: int| clear_pixel()),
    {
        Collector { bitmap: Bitmap::new(width, height), received: 0 }
    }

    /// Takes the finished column `x`, one color per row, top to bottom.
    pub fn accept(&mut self, x: u32, colors: &Vec<Rgba>)
        requires
            old(self).wf(),
            !old(self).spec_done(),
            colors@.len() >= old(self).image().spec_height(),
        ensures
            final(self).wf(),
            final(self).spec_received() == old(self).spec_received() + 1,
            final(self).image().spec_width() == old(self).image().spec_width(),
            final(self).image().spec_height() == old(self).image().spec_height(),
            final(self).image().pixels() == with_column(
                old(self).image().spec_width(),
                old(self).image().spec_height(),
                old(self).image().pixels(),
                x as int,
                colors@,
            ),
    {
        let ghost w = self.bitmap.spec_width();
        let ghost h = self.bitmap.spec_height();
        let ghost start = self.bitmap.pixels();
        let ghost received = self.received;
        let width: u32 = self.bitmap.width();
        let height: u32 = self.bitmap.height();
        let mut y: u32 = 0;
        while y < height
            invariant
                height == h,
                y <= height,
                self.received == received,
                received < w,
                self.bitmap.wf(),
                self.bitmap.spec_width() == w,
                self.bitmap.spec_height() == h,
                colors@.len() >= h,
                self.bitmap.pixels().len() == start.len(),
                forall|i: int|
                    0 <= i < start.len() ==> #[trigger] self.bitmap.pixels()[i] == if 0 <= x < w
                        && i % (w as int) == x && i / (w as int) < y {
                        colors@[i / (w as int)]
                    } else {
                        start[i]
                    },
            decreases height - y,
        {
            let ghost before = self.bitmap.pixels();
            self.bitmap.set_pixel(x, y, colors[y as usize]);
            proof {
                assert forall|i: int| 0 <= i < start.len() implies #[trigger] self.bitmap.pixels()[i]
                    == if 0 <= x < w && i % (w as int) == x && i / (w as int) < y + 1 {
                    colors@[i / (w as int)]
                } else {
                    start[i]
                } by {
                    if x < w {
                        lemma_index_split(w as int, x as int, y as int, i);
                        lemma_index_in_grid(w as int, h as int, x as int, y as int);
                        if i == pixel_index(w as int, x as int, y as int) {
                            assert(self.bitmap.pixels()[i] == colors@[y as int]);
                        } else {
                            assert(self.bitmap.pixels()[i] == before[i]);
                        }
                    } else {
                        assert(self.bitmap.pixels()[i] == before[i]);
                    }
                }
            }
            y = y + 1;
        }
        self.received = self.received + 1;
        assert(self.bitmap.pixels() =~= with_column(w, h, start, x as int, colors@));
    }

    /// Whether every column has come in.
    pub fn is_done(&self) -> (r: bool)
        requires
            self.wf(),
        ensures
            r == self.spec_done(),
    {
        self.received == self.bitmap.width()
    }

    /// How many columns have come in.
    pub fn received(&self) -> (r: u32)
        ensures
            r == self.spec_received(),
    {
        self.received
    }

    /// How many columns make the image.
    pub fn total(&self) -> (r: u32)
        ensures
            r == self.image().spec_width(),
    {
        self.bitmap.width()
    }

    /// The image as collected so far.
    pub fn into_bitmap(self) -> (r: Bitmap)
        ensures
            r == self.image(),
    {
        self.bitmap
    }
}

/// In a grid `w` wide, buffer index `i` is pixel (x, y) exactly when
/// `i % w == x` and `i / w == y`.
proof fn lemma_index_split(w: int, x: int, y: int, i: int)
    requires
        0 <= x < w,
        0 <= y,
        0 <= i,
    ensures
        (i == pixel_index(w, x, y)) <==> (i % w == x && i / w == y),
{
    if i == pixel_index(w, x, y) {
        vstd::arithmetic::div_mod::lemma_fundamental_div_mod_converse(i, w, y, x);
    }
    if i % w == x && i / w == y {
        vstd::arithmetic::div_mod::lemma_fundamental_div_mod(i, w);
        assert(i == w * (i / w) + i % w);
        assert(w * y == y * w) by (nonlinear_arith);
    }
}

/// The grid after the columns `deliveries` have been accepted, in that order:
/// each delivery is a column index and its colors, top to bottom.
pub open spec fn collected(
    width: nat,
    height: nat,
    pixels: Seq<Rgba>,
    deliveries: Seq<(u32, Seq<Rgba>)>,
) -> Seq<Rgba>
    decreases deliveries.len(),
{
    if deliveries.len() == 0 {
        pixels
    } else {
        let last = deliveries.last();
        with_column(
            width,
            height,
            collected(width, height, pixels, deliveries.drop_last()),
            last.0 as int,
            last.1,
        )
    }
}

/// No column is delivered twice.
pub open spec fn distinct_columns(deliveries: Seq<(u32, Seq<Rgba>)>) -> bool {
    forall|i: int, j: int|
        0 <= i < j < deliveries.len() ==> #[trigger] deliveries[i].0 != #[trigger] deliveries[j].0
}

/// With distinct columns, each pixel of the collected grid is the color that
/// the delivery of its column gave it, or its first value where no delivery
/// covers it.
pub proof fn lemma_collected_pixel(
    width: nat,
    height: nat,
    pixels: Seq<Rgba>,
    deliveries: Seq<(u32, Seq<Rgba>)>,
    i: int,
)
    requires
        distinct_columns(deliveries),
        pixels.len() == width * height,
        0 <= i < pixels.len(),
    ensures
        collected(width, height, pixels, deliveries).len() == pixels.len(),
        forall|k: int|
            0 <= k < deliveries.len() && #[trigger] deliveries[k].0 == i % (width as int)
                ==> collected(width, height, pixels, deliveries)[i] == deliveries[k].1[i
                / (width as int)],
        (forall|k: int|
            0 <= k < deliveries.len() ==> #[trigger] deliveries[k].0 != i % (width as int))
            ==> collected(width, height, pixels, deliveries)[i] == pixels[i],
    decreases deliveries.len(),
{
    lemma_pixel_in_grid(width as int, height as int, i);
    if deliveries.len() > 0 {
        let rest = deliveries.drop_last();
        assert(distinct_columns(rest)) by {
            assert forall|a: int, b: int| 0 <= a < b < rest.len() implies #[trigger] rest[a].0
                != #[trigger] rest[b].0 by {
                assert(rest[a] == deliveries[a] && rest[b] == deliveries[b]);
            }
        }
        lemma_collected_pixel(width, height, pixels, rest, i);
        let last_k = deliveries.len() - 1;
        assert forall|k: int|
            0 <= k < deliveries.len() && #[trigger] deliveries[k].0 == i % (width as int)
                implies collected(width, height, pixels, deliveries)[i] == deliveries[k].1[i
                / (width as int)] by {
            if k < last_k {
                assert(rest[k] == deliveries[k]);
                assert(deliveries[k].0 != deliveries[last_k].0);
            }
        }
        if forall|k: int|
            0 <= k < deliveries.len() ==> #[trigger] deliveries[k].0 != i % (width as int) {
            assert(deliveries[last_k].0 != i % (width as int));
            assert forall|k: int| 0 <= k < rest.len() implies #[trigger] rest[k].0 != i % (
            width as int) by {
                assert(rest[k] == deliveries[k]);
            }
        }
    }
}

/// Buffer index `i` of a width x height grid is a pixel inside the grid.
proof fn lemma_pixel_in_grid(width: int, height: int, i: int)
    requires
        0 <= width,
        0 <= height,
        0 <= i < width * height,
    ensures
        width > 0,
        0 <= i % width < width,
        0 <= i / width < height,
{
    if width == 0 {
        assert(width * height == 0);
    }
    vstd::arithmetic::div_mod::lemma_fundamental_div_mod(i, width);
    assert(0 <= i / width) by {
        vstd::arithmetic::div_mod::lemma_div_pos_is_pos(i, width);
    }
    let q = i / width;
    assert(q < height) by (nonlinear_arith)
        requires
            i == width * q + i % width,
            0 <= i % width,
            i < width * height,
            width > 0,
    ;
}

/// The collected image does not depend on the order in which the columns
/// arrive: two runs that deliver the same columns with the same colors, each
/// column once, in any order, produce the same pixels.
pub proof fn lemma_collected_order_independent(
    width: nat,
    height: nat,
    pixels: Seq<Rgba>,
    first: Seq<(u32, Seq<Rgba>)>,
    second: Seq<(u32, Seq<Rgba>)>,
)
    requires
        pixels.len() == width * height,
        distinct_columns(first),
        distinct_columns(second),
        forall|e: (u32, Seq<Rgba>)| first.contains(e) <==> second.contains(e),
    ensures
        collected(width, height, pixels, first) == collected(width, height, pixels, second),
{
    let a = collected(width, height, pixels, first);
    let b = collected(width, height, pixels, second);
    assert forall|i: int| 0 <= i < pixels.len() implies a[i] == b[i] by {
        lemma_collected_pixel(width, height, pixels, first, i);
        lemma_collected_pixel(width, height, pixels, second, i);
        let x = i % (width as int);
        if exists|k: int| 0 <= k < first.len() && #[trigger] first[k].0 == x {
            let k = choose|k: int| 0 <= k < first.len() && #[trigger] first[k].0 == x;
            assert(first.contains(first[k]));
            assert(second.contains(first[k]));
            let k2 = choose|k2: int| 0 <= k2 < second.len() && second[k2] == first[k];
            assert(second[k2].0 == x);
        } else if exists|k: int| 0 <= k < second.len() && #[trigger] second[k].0 == x {
            let k = choose|k: int| 0 <= k < second.len() && #[trigger] second[k].0 == x;
            assert(second.contains(second[k]));
            assert(first.contains(second[k]));
            let k1 = choose|k1: int| 0 <= k1 < first.len() && first[k1] == second[k];
            assert(first[k1].0 == x);
        }
    }
    lemma_collected_len(width, height, pixels, first);
    lemma_collected_len(width, height, pixels, second);
    assert(a =~= b);
}

/// Collecting keeps the grid's size.
proof fn lemma_collected_len(
    width: nat,
    height: nat,
    pixels: Seq<Rgba>,
    deliveries: Seq<(u32, Seq<Rgba>)>,
)
    ensures
        collected(width, height, pixels, deliveries).len() == pixels.len(),
    decreases deliveries.len(),
{
    if deliveries.len() > 0 {
        lemma_collected_len(width, height, pixels, deliveries.drop_last());
    }
}

} // verus!
