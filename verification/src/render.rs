//! The drawing surface of the display: a 1-bit image drawn on in blocks of
//! `scale` x `scale` image pixels per logical pixel, with colors inverted.
use vstd::prelude::*;
use crate::bmp_encoder::{bmp_file, drawn, image_size_fits, indices_fit, lemma_u1_bits_per_pixel, Coord, Image, U1};

verus! {

/// A 1-bit image seen as a grid of `scale` x `scale` blocks.
pub struct BmpWrapper {
    image: Image<U1>,
    scale: usize,
}

/// The image pixels that logical pixel `point` (lit where `on`) covers: column offset
/// `k / scale` and row offset `k % scale` for `k` below `scale * scale`, each holding
/// the inverse of `on`.
pub open spec fn block(point: Coord, on: bool, scale: u32) -> Seq<(Coord, bool)> {
    Seq::new(
        (scale * scale) as nat,
        |k: int| (Coord { x: (point.x * scale + k / scale as int) as u32, y: (point.y * scale + k % scale as int) as u32 }, !on),
    )
}

/// The image pixels that `points` cover, block after block.
pub open spec fn scaled(points: Seq<(Coord, bool)>, scale: u32) -> Seq<(Coord, bool)>
    decreases points.len(),
{
    if points.len() == 0 {
        Seq::empty()
    } else {
        scaled(points.drop_last(), scale) + block(points.last().0, points.last().1, scale)
    }
}

/// Whether every image pixel the blocks of `points` cover has a 32-bit coordinate and
/// a 32-bit pixel number on an image `width` pixels wide.
pub open spec fn blocks_fit(width: u32, points: Seq<(Coord, bool)>, scale: u32) -> bool {
    forall|i: int| 0 <= i < points.len() ==> #[trigger] block_fits(width, points[i].0, scale)
}

pub open spec fn block_fits(width: u32, point: Coord, scale: u32) -> bool {
    scale > 0 ==> {
        &&& point.x * scale + scale - 1 <= u32::MAX
        &&& point.y * scale + scale - 1 <= u32::MAX
        &&& (point.y * scale + scale - 1) * width + point.x * scale + scale - 1 <= u32::MAX
    }
}

/// Each image pixel of a block that fits has a 32-bit coordinate and pixel number.
proof fn lemma_block_entry_fits(width: u32, point: Coord, scale: u32, dx: nat, dy: nat)
    requires
        block_fits(width, point, scale),
        dx < scale,
        dy < scale,
    ensures
        point.x * scale + dx <= u32::MAX,
        point.y * scale + dy <= u32::MAX,
        (point.y * scale + dy) * width + point.x * scale + dx <= u32::MAX,
{
    assert((point.y * scale + dy) * width <= (point.y * scale + scale - 1) * width) by (nonlinear_arith)
        requires
            dy <= scale - 1,
    ;
}

impl BmpWrapper {
    pub closed spec fn image(&self) -> &Image<U1> {
        &self.image
    }

    pub closed spec fn scale(&self) -> usize {
        self.scale
    }

    pub closed spec fn wf(&self) -> bool {
        self.image.wf()
    }

    /// A blank `width` x `height` image drawn on in `scale` x `scale` blocks.
    pub fn new_with_scale(width: u32, height: u32, scale: usize) -> (r: BmpWrapper)
        requires
            image_size_fits(width, height, 1),
        ensures
            r.wf(),
            r.scale() == scale,
            r.image()@.width == width,
            r.image()@.height == height,
            r.image()@.pixels == crate::bmp_encoder::zeros(crate::bmp_encoder::bytes_for_bits(width as nat) * height as nat),
    {
        proof {
            lemma_u1_bits_per_pixel();
        }
        BmpWrapper { image: Image::new(width, height), scale }
    }

    /// The BMP file of the image.
    pub fn data(&self) -> (r: Result<Vec<u8>, std::io::Error>)
        requires
            self.wf(),
        ensures
            r matches Ok(bytes) && bytes@ == bmp_file(self.image()@.width, self.image()@.height, 1, self.image()@.pixels),
    {
        proof {
            lemma_u1_bits_per_pixel();
        }
        self.image.image_bytes()
    }

    /// Whether the block of logical pixel `point` lies within 32-bit coordinates and pixel
    /// numbers (`block_fits`), so that it can be drawn.
    pub fn fits(&self, point: Coord) -> (r: bool)
        ensures
            r == block_fits(self.image()@.width, point, self.scale() as u32),
    {
        let s = self.scale as u32;
        if s == 0 {
            return true;
        }
        let (width, _) = self.image.dimensions();
        let max: u128 = 0xffff_ffff;
        assert(point.x * s <= 0xffff_ffff * 0xffff_ffff && point.y * s <= 0xffff_ffff * 0xffff_ffff)
            by (nonlinear_arith)
            requires
                point.x <= 0xffff_ffff,
                point.y <= 0xffff_ffff,
                s <= 0xffff_ffff,
        ;
        let x_end: u128 = point.x as u128 * s as u128 + s as u128 - 1;
        let y_end: u128 = point.y as u128 * s as u128 + s as u128 - 1;
        if x_end > max || y_end > max {
            return false;
        }
        assert(y_end * width <= 0xffff_ffff * 0xffff_ffff) by (nonlinear_arith)
            requires
                y_end <= 0xffff_ffff,
                width <= 0xffff_ffff,
        ;
        y_end * width as u128 + x_end <= max
    }

    /// The size of the logical grid: the image size divided by the scale.
    pub fn bounding_box_size(&self) -> (r: (u32, u32))
        requires
            self.scale() as u32 != 0,
        ensures
            r == (
                (self.image()@.width / (self.scale() as u32)) as u32,
                (self.image()@.height / (self.scale() as u32)) as u32,
            ),
    {
        let (width, height) = self.image.dimensions();
        let s = self.scale as u32;
        (width / s, height / s)
    }
}


impl BmpWrapper {
    /// Draws each logical pixel `(point, on)` as the `scale` x `scale` block of image
    /// pixels from `(point.x * scale, point.y * scale)`, each holding the inverse of `on`.
    pub fn draw_scaled(&mut self, points: Vec<(Coord, bool)>)
        requires
            old(self).wf(),
            blocks_fit(old(self).image()@.width, points@, old(self).scale() as u32),
        ensures
            final(self).wf(),
            final(self).scale() == old(self).scale(),
            final(self).image()@.width == old(self).image()@.width,
            final(self).image()@.height == old(self).image()@.height,
            final(self).image()@.pixels == drawn::<U1>(
                old(self).image()@.pixels,
                old(self).image()@.width,
                scaled(points@, old(self).scale() as u32),
            ),
    {
        let s = self.scale as u32;
        let (width, _) = self.image.dimensions();
        let mut out: Vec<(Coord, bool)> = Vec::new();
        let mut i: usize = 0;
        while i < points.len()
            invariant
                i <= points@.len(),
                s == self.scale as u32,
                width == self.image@.width,
                blocks_fit(width, points@, s),
                out@ == scaled(points@.take(i as int), s),
                indices_fit(width, out@),
            decreases points@.len() - i,
        {
            let (p, on) = points[i];
            assert(block_fits(width, points@[i as int].0, s));
            assert(s as int * s as int <= 0xffff_ffff * 0xffff_ffff) by (nonlinear_arith)
                requires
                    s <= 0xffff_ffff,
            ;
            let total: u64 = s as u64 * s as u64;
            let ghost before = out@;
            let mut k: u64 = 0;
            while k < total
                invariant
                    k <= total,
                    total == s * s,
                    p == points@[i as int].0,
                    block_fits(width, p, s),
                    out@ == before + block(p, on, s).take(k as int),
                    indices_fit(width, out@),
                decreases total - k,
            {
                assert(s != 0) by (nonlinear_arith)
                    requires
                        k < total,
                        total == s * s,
                ;
                let dx: u64 = k / s as u64;
                let dy: u64 = k % s as u64;
                assert(dx < s) by (nonlinear_arith)
                    requires
                        k < s * s,
                        dx == (k as int) / (s as int),
                        s > 0,
                ;
                proof {
                    lemma_block_entry_fits(width, p, s, dx as nat, dy as nat);
                }
                let entry = (Coord { x: p.x * s + dx as u32, y: p.y * s + dy as u32 }, !on);
                out.push(entry);
                k = k + 1;
                assert(out@ =~= before + block(p, on, s).take(k as int));
            }
            assert(block(p, on, s).take(total as int) =~= block(p, on, s));
            assert(points@.take(i + 1).drop_last() =~= points@.take(i as int));
            i = i + 1;
        }
        assert(points@.take(points@.len() as int) =~= points@);
        self.image.draw_pixels(out);
    }
}

} // verus!
