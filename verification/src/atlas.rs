//! Laying images out in a texture atlas, row by row.

use vstd::prelude::*;

verus! {

/// The number by which an image in the atlas is known.
pub type TextureHandle = u32;

/// An image to be packed: its size in texels and its texels, four bytes each,
/// row after row.
pub struct AtlasImage {
    pub pixels: Vec<u8>,
    pub width: u32,
    pub height: u32,
}

/// The texels of an image of the given size with its rows in reverse order:
/// the last row first.
pub open spec fn flipped(pixels: Seq<u8>, width: int, height: int) -> Seq<u8> {
    Seq::new(
        (4 * width * height) as nat,
        |i: int| pixels[(height - 1 - i / (4 * width)) * (4 * width) + i % (4 * width)],
    )
}

impl AtlasImage {
    /// The number of bytes that the texels of an image of this size take.
    pub open spec fn byte_len(&self) -> int {
        4 * self.width * self.height
    }

    /// The texels with the rows in reverse order, or nothing where the image
    /// has fewer texels than its size says.
    pub fn flipped_pixels(&self) -> (turned: Option<Vec<u8>>)
        ensures
            match turned {
                Some(turned) => self.byte_len() <= self.pixels@.len() && turned@ == flipped(
                    self.pixels@,
                    self.width as int,
                    self.height as int,
                ),
                None => self.byte_len() > self.pixels@.len(),
            },
    {
        let wide: u128 = 4 * (self.width as u128);
        let high: u128 = self.height as u128;
        assert(wide * high <= 0x4_0000_0000 * 0x1_0000_0000) by (nonlinear_arith)
            requires
                0 <= wide <= 0x4_0000_0000,
                0 <= high <= 0x1_0000_0000,
        ;
        assert(wide * high == 4 * self.width * self.height) by (nonlinear_arith)
            requires
                wide == 4 * self.width,
                high == self.height,
        ;
        let total: u128 = wide * high;
        let len: usize = self.pixels.len();
        if total > len as u128 {
            return None;
        }
        let mut turned: Vec<u8> = Vec::new();
        if self.height == 0 || self.width == 0 {
            assert(4 * self.width * self.height == 0) by (nonlinear_arith)
                requires
                    self.height == 0 || self.width == 0,
            ;
            assert(turned@ =~= flipped(self.pixels@, self.width as int, self.height as int));
            return Some(turned);
        }
        assert(wide <= wide * high) by (nonlinear_arith)
            requires
                0 <= wide,
                1 <= high,
        ;
        let stride: usize = wide as usize;
        let rows: usize = self.height as usize;
        let mut row: usize = 0;
        while row < rows
            invariant
                row <= rows,
                rows == self.height,
                stride == 4 * self.width,
                stride > 0,
                stride * rows == self.byte_len(),
                self.byte_len() <= len,
                len == self.pixels@.len(),
                turned@.len() == row * stride,
                forall|i: int|
                    0 <= i < turned@.len() ==> #[trigger] turned@[i] == self.pixels@[(rows - 1 - i
                        / (stride as int)) * stride + i % (stride as int)],
            decreases rows - row,
        {
            let from: usize = rows - 1 - row;
            assert(from * stride + stride <= stride * rows) by (nonlinear_arith)
                requires
                    0 <= from < rows,
                    0 <= stride,
            ;
            assert((row + 1) * stride == row * stride + stride) by (nonlinear_arith);
            let start: usize = from * stride;
            let mut j: usize = 0;
            while j < stride
                invariant
                    j <= stride,
                    row < rows,
                    from == rows - 1 - row,
                    start == from * stride,
                    start + stride <= len,
                    len == self.pixels@.len(),
                    stride > 0,
                    turned@.len() == row * stride + j,
                    forall|i: int|
                        0 <= i < turned@.len() ==> #[trigger] turned@[i] == self.pixels@[(rows - 1
                            - i / (stride as int)) * stride + i % (stride as int)],
                decreases stride - j,
            {
                proof {
                    vstd::arithmetic::div_mod::lemma_fundamental_div_mod_converse(
                        row * stride + j,
                        stride as int,
                        row as int,
                        j as int,
                    );
                }
                turned.push(self.pixels[start + j]);
                j += 1;
            }
            row += 1;
        }
        proof {
            assert(row * stride == stride * rows) by (nonlinear_arith)
                requires
                    row == rows,
            ;
            assert(turned@ =~= flipped(self.pixels@, self.width as int, self.height as int));
        }
        Some(turned)
    }
}

/// Where the packing stands: the rows above `y` are closed, and the open row
/// is filled up to `x` and is `row_height` high.
pub struct Shelf {
    pub x: int,
    pub y: int,
    pub row_height: int,
}

/// Whether an image of the given width has to start a new row.
pub open spec fn starts_row(shelf: Shelf, width: int, atlas_width: int) -> bool {
    shelf.x + width > atlas_width
}

/// The corner at which an image of the given width is put.
pub open spec fn origin(shelf: Shelf, width: int, atlas_width: int) -> (int, int) {
    if starts_row(shelf, width, atlas_width) {
        (0, shelf.y + shelf.row_height)
    } else {
        (shelf.x, shelf.y)
    }
}

/// Where the packing stands after an image of the given size was put.
pub open spec fn place(shelf: Shelf, width: int, height: int, atlas_width: int) -> Shelf {
    if starts_row(shelf, width, atlas_width) {
        Shelf { x: width, y: shelf.y + shelf.row_height, row_height: height }
    } else {
        Shelf {
            x: shelf.x + width,
            y: shelf.y,
            row_height: if shelf.row_height >= height {
                shelf.row_height
            } else {
                height
            },
        }
    }
}

/// Where the packing stands after the given images were put, in their order,
/// left to right and row under row.
pub open spec fn packed(images: Seq<AtlasImage>, atlas_width: int) -> Shelf
    decreases images.len(),
{
    if images.len() == 0 {
        Shelf { x: 0, y: 0, row_height: 0 }
    } else {
        place(
            packed(images.drop_last(), atlas_width),
            images.last().width as int,
            images.last().height as int,
            atlas_width,
        )
    }
}

/// The height of an atlas of the given width that holds the given images.
pub open spec fn atlas_height(images: Seq<AtlasImage>, atlas_width: int) -> int {
    packed(images, atlas_width).y + packed(images, atlas_width).row_height
}

/// The corner at which the `i`-th of the given images is put.
pub open spec fn origin_of(images: Seq<AtlasImage>, atlas_width: int, i: int) -> (int, int) {
    origin(packed(images.take(i), atlas_width), images[i].width as int, atlas_width)
}

/// The packing never runs wider than the widest of atlas and image, and never
/// runs backwards.
pub proof fn lemma_packed_bounds(images: Seq<AtlasImage>, atlas_width: int)
    requires
        0 <= atlas_width <= u32::MAX,
    ensures
        0 <= packed(images, atlas_width).x <= u32::MAX,
        0 <= packed(images, atlas_width).y,
        0 <= packed(images, atlas_width).row_height <= u32::MAX,
    decreases images.len(),
{
    if images.len() > 0 {
        lemma_packed_bounds(images.drop_last(), atlas_width);
    }
}

/// An atlas for some of the images, taken from the front, is no higher than
/// the atlas for all of them.
pub proof fn lemma_height_grows(images: Seq<AtlasImage>, atlas_width: int, i: int)
    requires
        0 <= atlas_width <= u32::MAX,
        0 <= i <= images.len(),
    ensures
        atlas_height(images.take(i), atlas_width) <= atlas_height(images, atlas_width),
    decreases images.len() - i,
{
    if i == images.len() {
        assert(images.take(i) =~= images);
    } else {
        lemma_height_grows(images, atlas_width, i + 1);
        assert(images.take(i + 1).drop_last() =~= images.take(i));
        lemma_packed_bounds(images.take(i), atlas_width);
    }
}

/// Packs the images and returns the corner of each and the height of the
/// atlas, or nothing where that height is more than a `u32` holds.
fn pack(images: &[AtlasImage], atlas_width: u32) -> (layout: Option<(Vec<(u32, u32)>, u32)>)
    ensures
        match layout {
            Some((corners, height)) => {
                &&& height == atlas_height(images@, atlas_width as int)
                &&& corners@.len() == images@.len()
                &&& forall|i: int|
                    0 <= i < images@.len() ==> (#[trigger] corners@[i].0) as int == origin_of(
                        images@,
                        atlas_width as int,
                        i,
                    ).0 && corners@[i].1 as int == origin_of(images@, atlas_width as int, i).1
            },
            None => atlas_height(images@, atlas_width as int) > u32::MAX,
        },
{
    let mut corners: Vec<(u32, u32)> = Vec::new();
    let mut x: u64 = 0;
    let mut y: u64 = 0;
    let mut row_height: u64 = 0;
    let mut i: usize = 0;
    while i < images.len()
        invariant
            i <= images@.len(),
            x == packed(images@.take(i as int), atlas_width as int).x,
            y == packed(images@.take(i as int), atlas_width as int).y,
            row_height == packed(images@.take(i as int), atlas_width as int).row_height,
            x <= u32::MAX,
            row_height <= u32::MAX,
            y + row_height <= u32::MAX,
            corners@.len() == i,
            forall|k: int|
                0 <= k < i ==> (#[trigger] corners@[k].0) as int == origin_of(
                    images@,
                    atlas_width as int,
                    k,
                ).0 && corners@[k].1 as int == origin_of(images@, atlas_width as int, k).1,
        decreases images@.len() - i,
    {
        let width: u64 = images[i].width as u64;
        let height: u64 = images[i].height as u64;
        proof {
            assert(images@.take(i as int + 1).drop_last() =~= images@.take(i as int));
            assert(images@.take(i as int + 1).last() == images@[i as int]);
        }
        if x + width > atlas_width as u64 {
            x = 0;
            y = y + row_height;
            row_height = 0;
        }
        corners.push((x as u32, y as u32));
        x = x + width;
        if height > row_height {
            row_height = height;
        }
        if y + row_height > u32::MAX as u64 {
            proof {
                lemma_height_grows(images@, atlas_width as int, i as int + 1);
            }
            return None;
        }
        i += 1;
    }
    proof {
        assert(images@.take(i as int) =~= images@);
    }
    Some((corners, (y + row_height) as u32))
}

/// Collects images and lays them out in one atlas, left to right in rows: an
/// image that would run over the right edge starts the next row, under the
/// highest image of the row before.
pub struct AtlasBuilder {
    images: Vec<AtlasImage>,
}

impl View for AtlasBuilder {
    type V = Seq<AtlasImage>;

    closed spec fn view(&self) -> Seq<AtlasImage> {
        self.images@
    }
}

impl AtlasBuilder {
    pub fn new() -> (builder: Self)
        ensures
            builder@ == Seq::<AtlasImage>::empty(),
    {
        Self { images: Vec::new() }
    }

    /// Takes one more image and returns its handle: the number of images
    /// taken before.
    pub fn add_image(&mut self, image: AtlasImage) -> (handle: TextureHandle)
        requires
            old(self)@.len() <= TextureHandle::MAX,
        ensures
            final(self)@ == old(self)@.push(image),
            handle == old(self)@.len(),
    {
        let id: usize = self.images.len();
        self.images.push(image);
        id as u32
    }

    /// The images taken so far, by handle.
    pub fn images(&self) -> (images: &Vec<AtlasImage>)
        ensures
            images@ == self@,
    {
        &self.images
    }

    /// The height of the atlas of the given width that holds the images, or
    /// nothing where it is more than a `u32` holds.
    pub fn calculate_atlas_height(images: &[AtlasImage], atlas_width: u32) -> (height: Option<u32>)
        ensures
            match height {
                Some(height) => height == atlas_height(images@, atlas_width as int),
                None => atlas_height(images@, atlas_width as int) > u32::MAX,
            },
    {
        match pack(images, atlas_width) {
            Some((_, height)) => Some(height),
            None => None,
        }
    }

    /// The corner of each image in the atlas of the given width, as (x, y), or
    /// nothing where the atlas is higher than a `u32` holds.
    pub fn placements(images: &[AtlasImage], atlas_width: u32) -> (corners: Option<Vec<(u32, u32)>>)
        ensures
            match corners {
                Some(corners) => {
                    &&& atlas_height(images@, atlas_width as int) <= u32::MAX
                    &&& corners@.len() == images@.len()
                    &&& forall|i: int|
                        0 <= i < images@.len() ==> (#[trigger] corners@[i].0) as int == origin_of(
                            images@,
                            atlas_width as int,
                            i,
                        ).0 && corners@[i].1 as int == origin_of(images@, atlas_width as int, i).1
                },
                None => atlas_height(images@, atlas_width as int) > u32::MAX,
            },
    {
        match pack(images, atlas_width) {
            Some((corners, _)) => Some(corners),
            None => None,
        }
    }
}

} // verus!
