//! Texture storage, sampling and procedural generation: RGBA textures,
//! palette-indexed textures, and their mipmap chains.

use vstd::prelude::*;
use crate::pixel_buffer::{lemma_lin_bounds, lemma_lin_injective};

verus! {

/// A texel as (red, green, blue, alpha).
pub type Texel = (u8, u8, u8, u8);

/// Texel `(x, y)` of an RGBA byte image of row width `w` (bytes R, G, B, A).
pub open spec fn texel_of(bytes: Seq<u8>, w: int, x: int, y: int) -> Texel {
    let i = 4 * (y * w + x);
    (bytes[i], bytes[i + 1], bytes[i + 2], bytes[i + 3])
}

/// Writing only the cell of `(x0, y0)` (cells of `n` bytes, row-major) leaves the cells of
/// every other in-bounds position unchanged.
pub proof fn lemma_other_cells_unchanged(
    old: Seq<u8>,
    new: Seq<u8>,
    w: int,
    h: int,
    n: int,
    x0: int,
    y0: int,
)
    requires
        n >= 1,
        0 <= x0 < w,
        0 <= y0 < h,
        new.len() == old.len(),
        forall|k: int|
            0 <= k < old.len() && !(n * (y0 * w + x0) <= k < n * (y0 * w + x0) + n) ==> new[k]
                == old[k],
    ensures
        forall|x: int, y: int, c: int|
            0 <= x < w && 0 <= y < h && 0 <= c < n && !(x == x0 && y == y0) && 0 <= n * (y * w + x)
                + c < old.len() ==> #[trigger] new[n * (y * w + x) + c] == old[n * (y * w + x) + c],
{
    assert forall|x: int, y: int, c: int|
        0 <= x < w && 0 <= y < h && 0 <= c < n && !(x == x0 && y == y0) && 0 <= n * (y * w + x) + c
            < old.len() implies #[trigger] new[n * (y * w + x) + c] == old[n * (y * w + x) + c] by {
        lemma_lin_bounds(w, h, x, y);
        lemma_lin_bounds(w, h, x0, y0);
        let l = y * w + x;
        let l0 = y0 * w + x0;
        if l == l0 {
            lemma_lin_injective(w, x, y, x0, y0);
        }
        if l < l0 {
            assert(n * l + c < n * l0) by (nonlinear_arith)
                requires
                    l < l0,
                    0 <= c < n,
            ;
        } else {
            assert(n * l0 + n <= n * l + c) by (nonlinear_arith)
                requires
                    l > l0,
                    0 <= c,
                    n >= 1,
            ;
        }
    }
}

/// The truncated average of four channel values.
pub open spec fn avg4(a: u8, b: u8, c: u8, d: u8) -> u8 {
    ((a + b + c + d) / 4) as u8
}

/// The channel-wise average of the 2x2 block of `src` whose top-left texel is `(2x, 2y)`.
pub open spec fn half_texel(src: &Texture, x: int, y: int) -> Texel {
    let t00 = src.texel(2 * x, 2 * y);
    let t10 = src.texel(2 * x + 1, 2 * y);
    let t01 = src.texel(2 * x, 2 * y + 1);
    let t11 = src.texel(2 * x + 1, 2 * y + 1);
    (
        avg4(t00.0, t10.0, t01.0, t11.0),
        avg4(t00.1, t10.1, t01.1, t11.1),
        avg4(t00.2, t10.2, t01.2, t11.2),
        avg4(t00.3, t10.3, t01.3, t11.3),
    )
}

/// `dst` is the next mip level of `src`: half its size (rounded down), each texel the
/// truncated average of the corresponding 2x2 block.
pub open spec fn is_half_of(src: &Texture, dst: &Texture) -> bool {
    &&& dst.spec_width() == src.spec_width() / 2
    &&& dst.spec_height() == src.spec_height() / 2
    &&& forall|x: int, y: int| dst.contains(x, y) ==> #[trigger] dst.texel(x, y) == half_texel(src, x, y)
}

/// The index-wise truncated average of the 2x2 block of `src` whose top-left cell is `(2x, 2y)`.
pub open spec fn half_index(src: &IndexedTexture, x: int, y: int) -> u8 {
    avg4(
        src.index_at(2 * x, 2 * y),
        src.index_at(2 * x + 1, 2 * y),
        src.index_at(2 * x, 2 * y + 1),
        src.index_at(2 * x + 1, 2 * y + 1),
    )
}

/// `dst` is the next mip level of the indexed texture `src`.
pub open spec fn is_half_of_indexed(src: &IndexedTexture, dst: &IndexedTexture) -> bool {
    &&& dst.spec_width() == src.spec_width() / 2
    &&& dst.spec_height() == src.spec_height() / 2
    &&& forall|x: int, y: int| dst.contains(x, y) ==> #[trigger] dst.index_at(x, y) == half_index(src, x, y)
}

/// `2` to the power `n`.
pub open spec fn pow2(n: nat) -> nat
    decreases n,
{
    if n == 0 { 1 } else { 2 * pow2((n - 1) as nat) }
}

/// A texture stored as RGBA pixels (4 bytes per pixel, row-major).
#[derive(Clone)]
pub struct Texture {
    width: u32,
    height: u32,
    pixels: Vec<u8>,
}

impl Texture {
    /// The raw RGBA bytes.
    pub closed spec fn bytes(&self) -> Seq<u8> {
        self.pixels@
    }

    /// Width in texels.
    pub closed spec fn spec_width(&self) -> u32 {
        self.width
    }

    /// Height in texels.
    pub closed spec fn spec_height(&self) -> u32 {
        self.height
    }

    /// Well-formedness: four bytes per texel, and byte offsets fit in `u32`.
    pub open spec fn wf(&self) -> bool {
        &&& self.bytes().len() == self.spec_width() * self.spec_height() * 4
        &&& self.spec_width() * self.spec_height() * 4 <= u32::MAX
    }

    /// Whether `(x, y)` is a texel position.
    pub open spec fn contains(&self, x: int, y: int) -> bool {
        0 <= x < self.spec_width() && 0 <= y < self.spec_height()
    }

    /// The texel at `(x, y)`.
    pub open spec fn texel(&self, x: int, y: int) -> Texel {
        texel_of(self.bytes(), self.spec_width() as int, x, y)
    }

    /// Same dimensions and texels as `other`.
    pub open spec fn same_picture(&self, other: &Texture) -> bool {
        &&& self.spec_width() == other.spec_width()
        &&& self.spec_height() == other.spec_height()
        &&& forall|x: int, y: int| self.contains(x, y) ==> #[trigger] self.texel(x, y) == other.texel(x, y)
    }

    /// Create a new all-zero texture.
    pub fn new(width: u32, height: u32) -> (t: Self)
        requires
            width * height * 4 <= u32::MAX,
        ensures
            t.wf(),
            t.spec_width() == width,
            t.spec_height() == height,
            forall|x: int, y: int| t.contains(x, y) ==> #[trigger] t.texel(x, y) == (0u8, 0u8, 0u8, 0u8),
    {
        assert(0 <= width * height) by (nonlinear_arith);
        let n: u32 = width * height * 4;
        let t = Self { width, height, pixels: vec![0u8; n as usize] };
        assert forall|x: int, y: int| t.contains(x, y) implies #[trigger] t.texel(x, y) == (
            0u8,
            0u8,
            0u8,
            0u8,
        ) by {
            lemma_lin_bounds(width as int, height as int, x, y);
        }
        t
    }

    /// Create a texture from raw RGBA data; `None` unless `data` holds exactly
    /// `width * height * 4` bytes.
    pub fn from_rgba(width: u32, height: u32, data: Vec<u8>) -> (t: Option<Self>)
        requires
            width * height * 4 <= u32::MAX,
        ensures
            data@.len() == width * height * 4 <==> t is Some,
            t matches Some(tex) ==> tex.wf() && tex.spec_width() == width && tex.spec_height()
                == height && tex.bytes() == data@,
    {
        assert(0 <= width * height) by (nonlinear_arith);
        if data.len() == (width * height * 4) as usize {
            Some(Self { width, height, pixels: data })
        } else {
            None
        }
    }

    /// Width in texels.
    #[verifier::when_used_as_spec(spec_width)]
    pub fn width(&self) -> (w: u32)
        ensures
            w == self.spec_width(),
    {
        self.width
    }

    /// Height in texels.
    #[verifier::when_used_as_spec(spec_height)]
    pub fn height(&self) -> (h: u32)
        ensures
            h == self.spec_height(),
    {
        self.height
    }

    /// Byte offset of texel `(x, y)`.
    fn texel_index(&self, x: u32, y: u32) -> (i: usize)
        requires
            self.wf(),
            self.contains(x as int, y as int),
        ensures
            i == 4 * (y * self.spec_width() + x),
            i + 4 <= self.bytes().len(),
    {
        proof {
            lemma_lin_bounds(self.width as int, self.height as int, x as int, y as int);
            assert((y * self.width + x) * 4 + 4 <= self.width * self.height * 4) by (nonlinear_arith)
                requires
                    y * self.width + x < self.width * self.height,
            ;
        }
        ((y * self.width + x) * 4) as usize
    }

    /// Set a texel; positions outside the texture are ignored.
    pub fn set_pixel(&mut self, x: u32, y: u32, r: u8, g: u8, b: u8, a: u8)
        requires
            old(self).wf(),
        ensures
            final(self).wf(),
            final(self).spec_width() == old(self).spec_width(),
            final(self).spec_height() == old(self).spec_height(),
            forall|xx: int, yy: int|
                final(self).contains(xx, yy) ==> #[trigger] final(self).texel(xx, yy) == if xx == x
                    && yy == y {
                    (r, g, b, a)
                } else {
                    old(self).texel(xx, yy)
                },
    {
        if x < self.width && y < self.height {
            let idx = self.texel_index(x, y);
            let ghost before = self.pixels@;
            self.pixels.set(idx, r);
            self.pixels.set(idx + 1, g);
            self.pixels.set(idx + 2, b);
            self.pixels.set(idx + 3, a);
            proof {
                lemma_other_cells_unchanged(
                    before,
                    self.pixels@,
                    self.width as int,
                    self.height as int,
                    4,
                    x as int,
                    y as int,
                );
                assert forall|xx: int, yy: int| self.contains(xx, yy) && !(xx == x && yy == y) implies #[trigger] self.texel(
                    xx,
                    yy,
                ) == old(self).texel(xx, yy) by {
                    lemma_lin_bounds(self.width as int, self.height as int, xx, yy);
                    assert((yy * self.width + xx) * 4 + 4 <= self.width * self.height * 4) by (nonlinear_arith)
                        requires
                            yy * self.width + xx < self.width * self.height,
                    ;
                    let l = yy * self.width + xx;
                    assert(self.pixels@[4 * l + 0] == before[4 * l + 0]);
                    assert(self.pixels@[4 * l + 1] == before[4 * l + 1]);
                    assert(self.pixels@[4 * l + 2] == before[4 * l + 2]);
                    assert(self.pixels@[4 * l + 3] == before[4 * l + 3]);
                }
            }
        }
    }

    /// Texel `(x, y)` without alpha, for in-bounds positions.
    pub fn get_pixel_internal(&self, x: u32, y: u32) -> (p: (u8, u8, u8))
        requires
            self.wf(),
            self.contains(x as int, y as int),
        ensures
            p == (self.texel(x as int, y as int).0, self.texel(x as int, y as int).1, self.texel(
                x as int,
                y as int,
            ).2),
    {
        let idx = self.texel_index(x, y);
        (self.pixels[idx], self.pixels[idx + 1], self.pixels[idx + 2])
    }

    /// Fast nearest-neighbor sample at texel coordinates with bitmask wrapping: the texel
    /// at `(tx & (width - 1), ty & (height - 1))` over the two's-complement bits of the
    /// coordinates. Wraps as a tiling only for power-of-2 sizes.
    pub fn sample_texel(&self, tx: i32, ty: i32) -> (p: (u8, u8, u8))
        requires
            self.wf(),
            self.spec_width() > 0,
            self.spec_height() > 0,
        ensures
            p == ({
                let t = self.texel(
                    ((tx as u32) & (self.spec_width() - 1) as u32) as int,
                    ((ty as u32) & (self.spec_height() - 1) as u32) as int,
                );
                (t.0, t.1, t.2)
            }),
    {
        let mw = self.width - 1;
        let mh = self.height - 1;
        let x = (tx as u32) & mw;
        let y = (ty as u32) & mh;
        assert(x <= mw) by (bit_vector)
            requires
                x == (tx as u32) & mw,
        ;
        assert(y <= mh) by (bit_vector)
            requires
                y == (ty as u32) & mh,
        ;
        self.get_pixel_internal(x, y)
    }

    /// The texel at in-bounds `(x, y)`.
    fn texel_at(&self, x: u32, y: u32) -> (t: Texel)
        requires
            self.wf(),
            self.contains(x as int, y as int),
        ensures
            t == self.texel(x as int, y as int),
    {
        let idx = self.texel_index(x, y);
        (self.pixels[idx], self.pixels[idx + 1], self.pixels[idx + 2], self.pixels[idx + 3])
    }

    /// The next mip level: half the size in each dimension, each texel the truncated
    /// average of a 2x2 block.
    fn half(&self) -> (d: Self)
        requires
            self.wf(),
        ensures
            d.wf(),
            is_half_of(self, &d),
    {
        let w = self.width;
        let h = self.height;
        let new_w = w / 2;
        let new_h = h / 2;
        assert(new_w * new_h * 4 <= w * h * 4) by (nonlinear_arith)
            requires
                new_w <= w,
                new_h <= h,
        ;
        let mut down = Texture::new(new_w, new_h);
        let mut dy: u32 = 0;
        while dy < new_h
            invariant
                self.wf(),
                down.wf(),
                w == self.spec_width(),
                h == self.spec_height(),
                new_w == w / 2,
                new_h == h / 2,
                down.spec_width() == new_w,
                down.spec_height() == new_h,
                dy <= new_h,
                forall|x: int, y: int|
                    down.contains(x, y) ==> #[trigger] down.texel(x, y) == if y < dy {
                        half_texel(self, x, y)
                    } else {
                        (0u8, 0u8, 0u8, 0u8)
                    },
            decreases new_h - dy,
        {
            let mut dx: u32 = 0;
            while dx < new_w
                invariant
                    self.wf(),
                    down.wf(),
                    w == self.spec_width(),
                    h == self.spec_height(),
                    new_w == w / 2,
                    new_h == h / 2,
                    down.spec_width() == new_w,
                    down.spec_height() == new_h,
                    dy < new_h,
                    dx <= new_w,
                    forall|x: int, y: int|
                        down.contains(x, y) ==> #[trigger] down.texel(x, y) == if y < dy || (y == dy
                            && x < dx) {
                            half_texel(self, x, y)
                        } else {
                            (0u8, 0u8, 0u8, 0u8)
                        },
                decreases new_w - dx,
            {
                let sx = dx * 2;
                let sy = dy * 2;
                let t00 = self.texel_at(sx, sy);
                let t10 = self.texel_at(sx + 1, sy);
                let t01 = self.texel_at(sx, sy + 1);
                let t11 = self.texel_at(sx + 1, sy + 1);
                let r = (t00.0 as u32 + t10.0 as u32 + t01.0 as u32 + t11.0 as u32) / 4;
                let g = (t00.1 as u32 + t10.1 as u32 + t01.1 as u32 + t11.1 as u32) / 4;
                let b = (t00.2 as u32 + t10.2 as u32 + t01.2 as u32 + t11.2 as u32) / 4;
                let a = (t00.3 as u32 + t10.3 as u32 + t01.3 as u32 + t11.3 as u32) / 4;
                down.set_pixel(dx, dy, r as u8, g as u8, b as u8, a as u8);
                dx = dx + 1;
            }
            dy = dy + 1;
        }
        down
    }

    /// A copy of this texture with the same picture.
    pub fn duplicate(&self) -> (c: Self)
        requires
            self.wf(),
        ensures
            c.wf(),
            c.spec_width() == self.spec_width(),
            c.spec_height() == self.spec_height(),
            c.bytes() == self.bytes(),
    {
        let mut pixels: Vec<u8> = Vec::new();
        let n = self.pixels.len();
        let mut i: usize = 0;
        while i < n
            invariant
                n == self.bytes().len(),
                i <= n,
                pixels@ == self.bytes().subrange(0, i as int),
            decreases n - i,
        {
            pixels.push(self.pixels[i]);
            i = i + 1;
        }
        assert(pixels@ =~= self.bytes());
        Texture { width: self.width, height: self.height, pixels }
    }
}

// ============================================================================
// IndexedTexture — one u8 palette index per pixel
// ============================================================================

/// A texture that stores one u8 palette index per pixel.
#[derive(Clone)]
pub struct IndexedTexture {
    width: u32,
    height: u32,
    indices: Vec<u8>,
}

impl IndexedTexture {
    /// The raw indices, row-major.
    pub closed spec fn cells(&self) -> Seq<u8> {
        self.indices@
    }

    /// Width in texels.
    pub closed spec fn spec_width(&self) -> u32 {
        self.width
    }

    /// Height in texels.
    pub closed spec fn spec_height(&self) -> u32 {
        self.height
    }

    /// Well-formedness: one byte per texel, and offsets fit in `u32`.
    pub open spec fn wf(&self) -> bool {
        &&& self.cells().len() == self.spec_width() * self.spec_height()
        &&& self.spec_width() * self.spec_height() <= u32::MAX
    }

    /// Whether `(x, y)` is a texel position.
    pub open spec fn contains(&self, x: int, y: int) -> bool {
        0 <= x < self.spec_width() && 0 <= y < self.spec_height()
    }

    /// The index at `(x, y)`.
    pub open spec fn index_at(&self, x: int, y: int) -> u8 {
        self.cells()[y * self.spec_width() + x]
    }

    /// Create a new all-zero indexed texture.
    pub fn new(width: u32, height: u32) -> (t: Self)
        requires
            width * height <= u32::MAX,
        ensures
            t.wf(),
            t.spec_width() == width,
            t.spec_height() == height,
            forall|x: int, y: int| t.contains(x, y) ==> #[trigger] t.index_at(x, y) == 0,
    {
        assert(0 <= width * height) by (nonlinear_arith);
        let n: u32 = width * height;
        let t = Self { width, height, indices: vec![0u8; n as usize] };
        assert forall|x: int, y: int| t.contains(x, y) implies #[trigger] t.index_at(x, y) == 0 by {
            lemma_lin_bounds(width as int, height as int, x, y);
        }
        t
    }

    /// Convert a grayscale Texture to indexed: each index is the texel's red channel.
    pub fn from_grayscale(tex: &Texture) -> (t: Self)
        requires
            tex.wf(),
        ensures
            t.wf(),
            t.spec_width() == tex.spec_width(),
            t.spec_height() == tex.spec_height(),
            forall|x: int, y: int| t.contains(x, y) ==> #[trigger] t.index_at(x, y) == tex.texel(x, y).0,
    {
        assert(tex.spec_width() * tex.spec_height() <= tex.spec_width() * tex.spec_height() * 4)
            by (nonlinear_arith)
            requires
                0 <= tex.spec_width() * tex.spec_height(),
        ;
        assert(0 <= tex.spec_width() * tex.spec_height()) by (nonlinear_arith);
        let len = (tex.width * tex.height) as usize;
        let mut indices: Vec<u8> = Vec::new();
        let mut i: usize = 0;
        while i < len
            invariant
                tex.wf(),
                len == tex.spec_width() * tex.spec_height(),
                i <= len,
                indices@.len() == i,
                forall|j: int| 0 <= j < i ==> #[trigger] indices@[j] == tex.bytes()[4 * j],
            decreases len - i,
        {
            indices.push(tex.pixels[i * 4]);
            i = i + 1;
        }
        let t = Self { width: tex.width, height: tex.height, indices };
        assert forall|x: int, y: int| t.contains(x, y) implies #[trigger] t.index_at(x, y) == tex.texel(
            x,
            y,
        ).0 by {
            lemma_lin_bounds(tex.width as int, tex.height as int, x, y);
        }
        t
    }

    /// Set an index; positions outside the texture are ignored.
    pub fn set_index(&mut self, x: u32, y: u32, index: u8)
        requires
            old(self).wf(),
        ensures
            final(self).wf(),
            final(self).spec_width() == old(self).spec_width(),
            final(self).spec_height() == old(self).spec_height(),
            forall|xx: int, yy: int|
                final(self).contains(xx, yy) ==> #[trigger] final(self).index_at(xx, yy) == if xx == x
                    && yy == y {
                    index
                } else {
                    old(self).index_at(xx, yy)
                },
    {
        if x < self.width && y < self.height {
            proof {
                lemma_lin_bounds(self.width as int, self.height as int, x as int, y as int);
            }
            let i = (y * self.width + x) as usize;
            self.indices.set(i, index);
            proof {
                assert forall|xx: int, yy: int| self.contains(xx, yy) && !(xx == x && yy == y) implies #[trigger] self.index_at(
                    xx,
                    yy,
                ) == old(self).index_at(xx, yy) by {
                    lemma_lin_bounds(self.width as int, self.height as int, xx, yy);
                    if yy * self.width + xx == y * self.width + x {
                        lemma_lin_injective(self.width as int, xx, yy, x as int, y as int);
                    }
                }
            }
        }
    }

    /// The index at in-bounds `(x, y)`.
    fn get_index(&self, x: u32, y: u32) -> (v: u8)
        requires
            self.wf(),
            self.contains(x as int, y as int),
        ensures
            v == self.index_at(x as int, y as int),
    {
        proof {
            lemma_lin_bounds(self.width as int, self.height as int, x as int, y as int);
        }
        self.indices[(y * self.width + x) as usize]
    }

    /// Fast sample with bitmask wrapping: the index at `(tx & (width - 1), ty & (height - 1))`
    /// over the two's-complement bits of the coordinates (tiles for power-of-2 sizes).
    pub fn sample_index(&self, tx: i32, ty: i32) -> (v: u8)
        requires
            self.wf(),
            self.spec_width() > 0,
            self.spec_height() > 0,
        ensures
            v == self.index_at(
                ((tx as u32) & (self.spec_width() - 1) as u32) as int,
                ((ty as u32) & (self.spec_height() - 1) as u32) as int,
            ),
    {
        let mw = self.width - 1;
        let mh = self.height - 1;
        let x = (tx as u32) & mw;
        let y = (ty as u32) & mh;
        assert(x <= mw) by (bit_vector)
            requires
                x == (tx as u32) & mw,
        ;
        assert(y <= mh) by (bit_vector)
            requires
                y == (ty as u32) & mh,
        ;
        self.get_index(x, y)
    }

    /// Width in texels.
    #[verifier::when_used_as_spec(spec_width)]
    pub fn width(&self) -> (w: u32)
        ensures
            w == self.spec_width(),
    {
        self.width
    }

    /// Height in texels.
    #[verifier::when_used_as_spec(spec_height)]
    pub fn height(&self) -> (h: u32)
        ensures
            h == self.spec_height(),
    {
        self.height
    }

    /// The next mip level: half the size, each index the truncated average of a 2x2 block.
    fn half(&self) -> (d: Self)
        requires
            self.wf(),
        ensures
            d.wf(),
            is_half_of_indexed(self, &d),
    {
        let w = self.width;
        let h = self.height;
        let new_w = w / 2;
        let new_h = h / 2;
        assert(new_w * new_h <= w * h) by (nonlinear_arith)
            requires
                new_w <= w,
                new_h <= h,
        ;
        let mut down = IndexedTexture::new(new_w, new_h);
        let mut dy: u32 = 0;
        while dy < new_h
            invariant
                self.wf(),
                down.wf(),
                w == self.spec_width(),
                h == self.spec_height(),
                new_w == w / 2,
                new_h == h / 2,
                down.spec_width() == new_w,
                down.spec_height() == new_h,
                dy <= new_h,
                forall|x: int, y: int|
                    down.contains(x, y) ==> #[trigger] down.index_at(x, y) == if y < dy {
                        half_index(self, x, y)
                    } else {
                        0u8
                    },
            decreases new_h - dy,
        {
            let mut dx: u32 = 0;
            while dx < new_w
                invariant
                    self.wf(),
                    down.wf(),
                    w == self.spec_width(),
                    h == self.spec_height(),
                    new_w == w / 2,
                    new_h == h / 2,
                    down.spec_width() == new_w,
                    down.spec_height() == new_h,
                    dy < new_h,
                    dx <= new_w,
                    forall|x: int, y: int|
                        down.contains(x, y) ==> #[trigger] down.index_at(x, y) == if y < dy || (y
                            == dy && x < dx) {
                            half_index(self, x, y)
                        } else {
                            0u8
                        },
                decreases new_w - dx,
            {
                let sx = dx * 2;
                let sy = dy * 2;
                let sum = self.get_index(sx, sy) as u32 + self.get_index(sx + 1, sy) as u32
                    + self.get_index(sx, sy + 1) as u32 + self.get_index(sx + 1, sy + 1) as u32;
                down.set_index(dx, dy, (sum / 4) as u8);
                dx = dx + 1;
            }
            dy = dy + 1;
        }
        down
    }

    /// A copy with the same indices.
    pub fn duplicate(&self) -> (c: Self)
        requires
            self.wf(),
        ensures
            c.wf(),
            c.spec_width() == self.spec_width(),
            c.spec_height() == self.spec_height(),
            c.cells() == self.cells(),
    {
        let mut indices: Vec<u8> = Vec::new();
        let n = self.indices.len();
        let mut i: usize = 0;
        while i < n
            invariant
                n == self.cells().len(),
                i <= n,
                indices@ == self.cells().subrange(0, i as int),
            decreases n - i,
        {
            indices.push(self.indices[i]);
            i = i + 1;
        }
        assert(indices@ =~= self.cells());
        IndexedTexture { width: self.width, height: self.height, indices }
    }
}

/// `2^n` is at least `2^32` from `n == 32` on.
proof fn lemma_pow2_large(n: nat)
    requires
        n >= 32,
    ensures
        pow2(n) >= 0x1_0000_0000,
    decreases n,
{
    if n == 32 {
        reveal_with_fuel(pow2, 33);
        assert(pow2(32) == 0x1_0000_0000);
    } else {
        lemma_pow2_large((n - 1) as nat);
    }
}

/// The smaller of `level` and `len - 1`.
fn clamp_level(level: u32, len: usize) -> (l: usize)
    requires
        len >= 1,
    ensures
        l == if (level as int) < len - 1 { level as int } else { len - 1 },
{
    let lv = level as usize;
    if lv < len - 1 {
        lv
    } else {
        len - 1
    }
}

// ============================================================================
// MipTexture — mipmapped RGBA texture chain
// ============================================================================

/// A mipmapped texture: a chain of progressively halved Texture levels.
/// Level 0 is the full-size texture, level N is the full size shifted right by N.
pub struct MipTexture {
    levels: Vec<Texture>,
}

impl MipTexture {
    /// The chain of levels.
    pub closed spec fn levels(&self) -> Seq<Texture> {
        self.levels@
    }

    /// Well-formedness: a non-empty chain (at most 32 levels) where each level is the
    /// half of the previous one, halving continues exactly while both dimensions exceed 1.
    pub open spec fn wf(&self) -> bool {
        let l = self.levels();
        &&& 1 <= l.len() <= 32
        &&& forall|i: int| 0 <= i < l.len() ==> (#[trigger] l[i]).wf()
        &&& forall|i: int|
            0 <= i < l.len() - 1 ==> (#[trigger] l[i]).spec_width() > 1 && l[i].spec_height() > 1
                && is_half_of(&l[i], &l[i + 1])
        &&& l.last().spec_width() <= 1 || l.last().spec_height() <= 1
    }

    /// Build the mip chain by box-filtering 2x2 blocks.
    pub fn from_texture(tex: &Texture) -> (m: Self)
        requires
            tex.wf(),
        ensures
            m.wf(),
            m.levels()[0].bytes() == tex.bytes(),
            m.levels()[0].spec_width() == tex.spec_width(),
            m.levels()[0].spec_height() == tex.spec_height(),
    {
        let mut levels: Vec<Texture> = Vec::new();
        levels.push(tex.duplicate());
        let mut w = tex.width;
        let mut h = tex.height;
        assert(pow2(0) == 1);
        assert(w * pow2(0) == w) by (nonlinear_arith)
            requires
                pow2(0) == 1,
        ;
        while w > 1 && h > 1
            invariant
                1 <= levels@.len() <= 32,
                levels@[0].bytes() == tex.bytes(),
                levels@[0].spec_width() == tex.spec_width(),
                levels@[0].spec_height() == tex.spec_height(),
                levels@.last().spec_width() == w,
                levels@.last().spec_height() == h,
                w * pow2((levels@.len() - 1) as nat) <= tex.spec_width(),
                forall|i: int| 0 <= i < levels@.len() ==> (#[trigger] levels@[i]).wf(),
                forall|i: int|
                    0 <= i < levels@.len() - 1 ==> (#[trigger] levels@[i]).spec_width() > 1
                        && levels@[i].spec_height() > 1 && is_half_of(&levels@[i], &levels@[i + 1]),
            decreases w,
        {
            let n = levels.len();
            let down = levels[n - 1].half();
            proof {
                let k = (n - 1) as nat;
                assert(pow2(k + 1) == 2 * pow2(k));
                assert((w / 2) * pow2(k + 1) <= w * pow2(k)) by (nonlinear_arith)
                    requires
                        pow2(k + 1) == 2 * pow2(k),
                        w >= 0,
                ;
                if n >= 33 {
                    lemma_pow2_large(k);
                    assert(w * pow2(k) >= 2 * pow2(k)) by (nonlinear_arith)
                        requires
                            w >= 2,
                    ;
                }
            }
            let ghost before = levels@;
            levels.push(down);
            proof {
                assert forall|i: int| 0 <= i < levels@.len() - 1 implies (#[trigger] levels@[i]).spec_width()
                    > 1 && levels@[i].spec_height() > 1 && is_half_of(&levels@[i], &levels@[i + 1]) by {
                    if i < n - 1 {
                        assert(levels@[i] == before[i]);
                        assert(levels@[i + 1] == before[i + 1]);
                    }
                }
            }
            w = w / 2;
            h = h / 2;
        }
        MipTexture { levels }
    }

    /// Number of mip levels.
    pub fn level_count(&self) -> (n: usize)
        ensures
            n == self.levels().len(),
    {
        self.levels.len()
    }

    /// Access a level; indices past the last level give the last level.
    pub fn level(&self, level: u32) -> (t: &Texture)
        requires
            self.wf(),
        ensures
            *t == self.levels()[if (level as int) < self.levels().len() - 1 {
                level as int
            } else {
                self.levels().len() - 1
            }],
    {
        let l = clamp_level(level, self.levels.len());
        &self.levels[l]
    }

    /// Nearest-neighbor sample at a mip level (clamped to the last level): the level-0
    /// texel coordinates are shifted right by the level, then bitmask-wrapped.
    pub fn sample_mipped(&self, tx: i32, ty: i32, level: u32) -> (p: (u8, u8, u8))
        requires
            self.wf(),
            self.levels()[0].spec_width() > 0,
            self.levels()[0].spec_height() > 0,
        ensures
            ({
                let l = if (level as int) < self.levels().len() - 1 {
                    level as int
                } else {
                    self.levels().len() - 1
                };
                let tex = self.levels()[l];
                let t = tex.texel(
                    (((tx >> (l as i32)) as u32) & (tex.spec_width() - 1) as u32) as int,
                    (((ty >> (l as i32)) as u32) & (tex.spec_height() - 1) as u32) as int,
                );
                p == (t.0, t.1, t.2)
            }),
    {
        let l = clamp_level(level, self.levels.len());
        let tex = &self.levels[l];
        proof {
            if l > 0 {
                assert(self.levels()[l - 1].spec_width() > 1 && is_half_of(
                    &self.levels()[l - 1],
                    &self.levels()[l - 1 + 1],
                ));
            }
        }
        let li = l as i32;
        tex.sample_texel(tx >> li, ty >> li)
    }
}

// ============================================================================
// IndexedMipTexture — mipmapped palette-indexed texture chain
// ============================================================================

/// Mipmapped version of IndexedTexture: a chain of halved IndexedTexture levels.
pub struct IndexedMipTexture {
    levels: Vec<IndexedTexture>,
}

impl IndexedMipTexture {
    /// The chain of levels.
    pub closed spec fn levels(&self) -> Seq<IndexedTexture> {
        self.levels@
    }

    /// Well-formedness: as for `MipTexture`.
    pub open spec fn wf(&self) -> bool {
        let l = self.levels();
        &&& 1 <= l.len() <= 32
        &&& forall|i: int| 0 <= i < l.len() ==> (#[trigger] l[i]).wf()
        &&& forall|i: int|
            0 <= i < l.len() - 1 ==> (#[trigger] l[i]).spec_width() > 1 && l[i].spec_height() > 1
                && is_half_of_indexed(&l[i], &l[i + 1])
        &&& l.last().spec_width() <= 1 || l.last().spec_height() <= 1
    }

    /// Build the mip chain from an IndexedTexture; downsampling averages 2x2 blocks.
    pub fn from_indexed(tex: &IndexedTexture) -> (m: Self)
        requires
            tex.wf(),
        ensures
            m.wf(),
            m.levels()[0].cells() == tex.cells(),
            m.levels()[0].spec_width() == tex.spec_width(),
            m.levels()[0].spec_height() == tex.spec_height(),
    {
        let mut levels: Vec<IndexedTexture> = Vec::new();
        levels.push(tex.duplicate());
        let mut w = tex.width;
        let mut h = tex.height;
        assert(pow2(0) == 1);
        assert(w * pow2(0) == w) by (nonlinear_arith)
            requires
                pow2(0) == 1,
        ;
        while w > 1 && h > 1
            invariant
                1 <= levels@.len() <= 32,
                levels@[0].cells() == tex.cells(),
                levels@[0].spec_width() == tex.spec_width(),
                levels@[0].spec_height() == tex.spec_height(),
                levels@.last().spec_width() == w,
                levels@.last().spec_height() == h,
                w * pow2((levels@.len() - 1) as nat) <= tex.spec_width(),
                forall|i: int| 0 <= i < levels@.len() ==> (#[trigger] levels@[i]).wf(),
                forall|i: int|
                    0 <= i < levels@.len() - 1 ==> (#[trigger] levels@[i]).spec_width() > 1
                        && levels@[i].spec_height() > 1 && is_half_of_indexed(
                        &levels@[i],
                        &levels@[i + 1],
                    ),
            decreases w,
        {
            let n = levels.len();
            let down = levels[n - 1].half();
            proof {
                let k = (n - 1) as nat;
                assert(pow2(k + 1) == 2 * pow2(k));
                assert((w / 2) * pow2(k + 1) <= w * pow2(k)) by (nonlinear_arith)
                    requires
                        pow2(k + 1) == 2 * pow2(k),
                        w >= 0,
                ;
                if n >= 33 {
                    lemma_pow2_large(k);
                    assert(w * pow2(k) >= 2 * pow2(k)) by (nonlinear_arith)
                        requires
                            w >= 2,
                    ;
                }
            }
            let ghost before = levels@;
            levels.push(down);
            proof {
                assert forall|i: int| 0 <= i < levels@.len() - 1 implies (#[trigger] levels@[i]).spec_width()
                    > 1 && levels@[i].spec_height() > 1 && is_half_of_indexed(
                    &levels@[i],
                    &levels@[i + 1],
                ) by {
                    if i < n - 1 {
                        assert(levels@[i] == before[i]);
                        assert(levels@[i + 1] == before[i + 1]);
                    }
                }
            }
            w = w / 2;
            h = h / 2;
        }
        IndexedMipTexture { levels }
    }

    /// Build from a grayscale Texture directly (red channel as index).
    pub fn from_grayscale(tex: &Texture) -> (m: Self)
        requires
            tex.wf(),
        ensures
            m.wf(),
            m.levels()[0].spec_width() == tex.spec_width(),
            m.levels()[0].spec_height() == tex.spec_height(),
            forall|x: int, y: int|
                m.levels()[0].contains(x, y) ==> #[trigger] m.levels()[0].index_at(x, y) == tex.texel(
                    x,
                    y,
                ).0,
    {
        let it = IndexedTexture::from_grayscale(tex);
        let m = Self::from_indexed(&it);
        assert forall|x: int, y: int| m.levels()[0].contains(x, y) implies #[trigger] m.levels()[0].index_at(
            x,
            y,
        ) == tex.texel(x, y).0 by {
            assert(it.contains(x, y));
            assert(m.levels()[0].index_at(x, y) == it.index_at(x, y));
        }
        m
    }

    /// Number of mip levels.
    pub fn level_count(&self) -> (n: usize)
        ensures
            n == self.levels().len(),
    {
        self.levels.len()
    }

    /// Sample a palette index at a mip level (clamped to the last level): level-0 texel
    /// coordinates shifted right by the level, then bitmask-wrapped.
    pub fn sample_index_mipped(&self, tx: i32, ty: i32, level: u32) -> (v: u8)
        requires
            self.wf(),
            self.levels()[0].spec_width() > 0,
            self.levels()[0].spec_height() > 0,
        ensures
            ({
                let l = if (level as int) < self.levels().len() - 1 {
                    level as int
                } else {
                    self.levels().len() - 1
                };
                let tex = self.levels()[l];
                v == tex.index_at(
                    (((tx >> (l as i32)) as u32) & (tex.spec_width() - 1) as u32) as int,
                    (((ty >> (l as i32)) as u32) & (tex.spec_height() - 1) as u32) as int,
                )
            }),
    {
        let l = clamp_level(level, self.levels.len());
        proof {
            if l > 0 {
                assert(self.levels()[l - 1].spec_width() > 1 && is_half_of_indexed(
                    &self.levels()[l - 1],
                    &self.levels()[l - 1 + 1],
                ));
            }
        }
        let li = l as i32;
        self.levels[l].sample_index(tx >> li, ty >> li)
    }
}

impl IndexedTexture {
    /// Same dimensions and indices as `other`.
    pub open spec fn same_indices(&self, other: &IndexedTexture) -> bool {
        &&& self.spec_width() == other.spec_width()
        &&& self.spec_height() == other.spec_height()
        &&& forall|x: int, y: int|
            self.contains(x, y) ==> #[trigger] self.index_at(x, y) == other.index_at(x, y)
    }
}

/// Two well-formed indexed textures with the same size and indices hold the same cells.
proof fn lemma_same_indices_same_cells(t1: &IndexedTexture, t2: &IndexedTexture)
    requires
        t1.wf(),
        t2.wf(),
        t1.same_indices(t2),
    ensures
        t1.cells() == t2.cells(),
{
    let w = t1.spec_width() as int;
    let h = t1.spec_height() as int;
    assert forall|k: int| 0 <= k < t1.cells().len() implies t1.cells()[k] == t2.cells()[k] by {
        let x = k % w;
        let y = k / w;
        vstd::arithmetic::div_mod::lemma_fundamental_div_mod(k, w);
        assert(y < h) by (nonlinear_arith)
            requires
                k < w * h,
                k == w * y + x,
                0 <= x,
                w > 0,
        ;
        assert(0 <= y) by (nonlinear_arith)
            requires
                k >= 0,
                w > 0,
                y == k / w,
        ;
        assert(t1.contains(x, y));
        assert(t1.index_at(x, y) == t2.index_at(x, y));
    }
    assert(t1.cells() =~= t2.cells());
}

/// Level `i` of two well-formed indexed chains whose first levels agree agree too.
proof fn lemma_indexed_level_agrees(m1: &IndexedMipTexture, m2: &IndexedMipTexture, i: int)
    requires
        m1.wf(),
        m2.wf(),
        m1.levels()[0].same_indices(&m2.levels()[0]),
        0 <= i < m1.levels().len(),
        i < m2.levels().len(),
    ensures
        m1.levels()[i].same_indices(&m2.levels()[i]),
    decreases i,
{
    if i > 0 {
        lemma_indexed_level_agrees(m1, m2, i - 1);
        let p1 = m1.levels()[i - 1];
        let p2 = m2.levels()[i - 1];
        let c1 = m1.levels()[i];
        let c2 = m2.levels()[i];
        assert(p1.spec_width() > 1 && is_half_of_indexed(&p1, &m1.levels()[(i - 1) + 1]));
        assert(p2.spec_width() > 1 && is_half_of_indexed(&p2, &m2.levels()[(i - 1) + 1]));
        assert forall|x: int, y: int| c1.contains(x, y) implies #[trigger] c1.index_at(x, y)
            == c2.index_at(x, y) by {
            assert(c1.index_at(x, y) == half_index(&p1, x, y));
            assert(c2.index_at(x, y) == half_index(&p2, x, y));
            assert(p1.contains(2 * x, 2 * y) && p1.contains(2 * x + 1, 2 * y + 1));
            assert(p1.index_at(2 * x, 2 * y) == p2.index_at(2 * x, 2 * y));
            assert(p1.index_at(2 * x + 1, 2 * y) == p2.index_at(2 * x + 1, 2 * y));
            assert(p1.index_at(2 * x, 2 * y + 1) == p2.index_at(2 * x, 2 * y + 1));
            assert(p1.index_at(2 * x + 1, 2 * y + 1) == p2.index_at(2 * x + 1, 2 * y + 1));
        }
    }
}

/// An indexed mip chain is determined by its first level: two well-formed chains whose
/// level 0 has the same size and indices have the same number of levels, and every level
/// has the same size and indices. So `IndexedMipTexture::from_grayscale(tex)` and
/// `IndexedMipTexture::from_indexed(&IndexedTexture::from_grayscale(tex))` (both with
/// level 0 holding the red bytes of `tex`) agree level by level, and sample alike.
pub proof fn lemma_indexed_chain_determined(m1: &IndexedMipTexture, m2: &IndexedMipTexture)
    requires
        m1.wf(),
        m2.wf(),
        m1.levels()[0].same_indices(&m2.levels()[0]),
    ensures
        m1.levels().len() == m2.levels().len(),
        forall|i: int| 0 <= i < m1.levels().len() ==> (#[trigger] m1.levels()[i]).same_indices(
            &m2.levels()[i],
        ),
        forall|i: int| 0 <= i < m1.levels().len() ==> (#[trigger] m1.levels()[i]).cells()
            == m2.levels()[i].cells(),
{
    let n1 = m1.levels().len() as int;
    let n2 = m2.levels().len() as int;
    if n1 < n2 {
        lemma_indexed_level_agrees(m1, m2, n1 - 1);
        assert(m2.levels()[n1 - 1].spec_width() > 1 && m2.levels()[n1 - 1].spec_height() > 1);
    } else if n2 < n1 {
        lemma_indexed_level_agrees(m1, m2, n2 - 1);
        assert(m1.levels()[n2 - 1].spec_width() > 1 && m1.levels()[n2 - 1].spec_height() > 1);
    }
    assert forall|i: int| 0 <= i < m1.levels().len() implies (#[trigger] m1.levels()[i]).same_indices(
        &m2.levels()[i],
    ) by {
        lemma_indexed_level_agrees(m1, m2, i);
    }
    assert forall|i: int| 0 <= i < m1.levels().len() implies (#[trigger] m1.levels()[i]).cells()
        == m2.levels()[i].cells() by {
        lemma_indexed_level_agrees(m1, m2, i);
        lemma_same_indices_same_cells(&m1.levels()[i], &m2.levels()[i]);
    }
}

/// Halving `2^n` gives `2^(n - 1)` for `n >= 1`.
proof fn lemma_pow2_half(n: nat)
    requires
        n >= 1,
    ensures
        pow2(n) / 2 == pow2((n - 1) as nat),
        pow2(n) >= 2,
{
    lemma_pow2_pos((n - 1) as nat);
}

/// `2^n` is positive.
proof fn lemma_pow2_pos(n: nat)
    ensures
        pow2(n) >= 1,
    decreases n,
{
    if n > 0 {
        lemma_pow2_pos((n - 1) as nat);
    }
}

/// The levels of a well-formed indexed chain whose level 0 is `2^a` by `2^b` are
/// `2^(a - i)` by `2^(b - i)` down to level `min(a, b)`, the last one: the chain has
/// `1 + min(a, b)` levels.
pub proof fn lemma_indexed_pow2_levels(m: &IndexedMipTexture, a: nat, b: nat)
    requires
        m.wf(),
        m.levels()[0].spec_width() == pow2(a),
        m.levels()[0].spec_height() == pow2(b),
    ensures
        m.levels().len() == 1 + if a <= b { a } else { b },
        forall|i: int|
            0 <= i < m.levels().len() ==> (#[trigger] m.levels()[i]).spec_width() == pow2((a - i) as nat)
                && m.levels()[i].spec_height() == pow2((b - i) as nat),
{
    let k: int = if a <= b { a as int } else { b as int };
    let n = m.levels().len() as int;
    assert forall|i: int| 0 <= i < n && i <= k implies (#[trigger] m.levels()[i]).spec_width()
        == pow2((a - i) as nat) && m.levels()[i].spec_height() == pow2((b - i) as nat) by {
        lemma_indexed_pow2_level(m, a, b, i);
    }
    if n - 1 < k {
        let l = m.levels()[n - 1];
        lemma_pow2_half((a - (n - 1)) as nat);
        lemma_pow2_half((b - (n - 1)) as nat);
        assert(l.spec_width() <= 1 || l.spec_height() <= 1);
    } else if n - 1 > k {
        lemma_pow2_half(1);
        assert(pow2(0) == 1);
        assert(m.levels()[k].spec_width() > 1 && m.levels()[k].spec_height() > 1);
        assert(m.levels()[k].spec_width() == pow2((a - k) as nat));
        assert(m.levels()[k].spec_height() == pow2((b - k) as nat));
    }
}

/// Level `i` (with `i <= min(a, b)`) of a chain whose level 0 is `2^a` by `2^b` is
/// `2^(a - i)` by `2^(b - i)`.
proof fn lemma_indexed_pow2_level(m: &IndexedMipTexture, a: nat, b: nat, i: int)
    requires
        m.wf(),
        m.levels()[0].spec_width() == pow2(a),
        m.levels()[0].spec_height() == pow2(b),
        0 <= i < m.levels().len(),
        i <= a,
        i <= b,
    ensures
        m.levels()[i].spec_width() == pow2((a - i) as nat),
        m.levels()[i].spec_height() == pow2((b - i) as nat),
    decreases i,
{
    if i > 0 {
        lemma_indexed_pow2_level(m, a, b, i - 1);
        assert(m.levels()[i - 1].spec_width() > 1 && is_half_of_indexed(
            &m.levels()[i - 1],
            &m.levels()[(i - 1) + 1],
        ));
        lemma_pow2_half((a - (i - 1)) as nat);
        lemma_pow2_half((b - (i - 1)) as nat);
    }
}

/// Two well-formed textures showing the same picture hold the same bytes.
proof fn lemma_same_picture_same_bytes(t1: &Texture, t2: &Texture)
    requires
        t1.wf(),
        t2.wf(),
        t1.same_picture(t2),
    ensures
        t1.bytes() == t2.bytes(),
{
    let w = t1.spec_width() as int;
    let h = t1.spec_height() as int;
    assert forall|k: int| 0 <= k < t1.bytes().len() implies t1.bytes()[k] == t2.bytes()[k] by {
        let p = k / 4;
        let c = k % 4;
        vstd::arithmetic::div_mod::lemma_fundamental_div_mod(k, 4);
        let x = p % w;
        let y = p / w;
        vstd::arithmetic::div_mod::lemma_fundamental_div_mod(p, w);
        assert(p < w * h) by (nonlinear_arith)
            requires
                k < w * h * 4,
                k == 4 * p + c,
                0 <= c < 4,
        ;
        assert(0 <= p);
        assert(y < h) by (nonlinear_arith)
            requires
                p < w * h,
                p == w * y + x,
                0 <= x,
                w > 0,
        ;
        assert(0 <= y) by (nonlinear_arith)
            requires
                p >= 0,
                w > 0,
                y == p / w,
        ;
        assert(t1.contains(x, y));
        assert(t1.texel(x, y) == t2.texel(x, y));
        assert(4 * (y * w + x) == 4 * p) by (nonlinear_arith)
            requires
                p == w * y + x,
        ;
    }
    assert(t1.bytes() =~= t2.bytes());
}

/// Level `i` of two well-formed RGBA chains whose first levels agree agree too.
proof fn lemma_level_agrees(m1: &MipTexture, m2: &MipTexture, i: int)
    requires
        m1.wf(),
        m2.wf(),
        m1.levels()[0].same_picture(&m2.levels()[0]),
        0 <= i < m1.levels().len(),
        i < m2.levels().len(),
    ensures
        m1.levels()[i].same_picture(&m2.levels()[i]),
    decreases i,
{
    if i > 0 {
        lemma_level_agrees(m1, m2, i - 1);
        let p1 = m1.levels()[i - 1];
        let p2 = m2.levels()[i - 1];
        let c1 = m1.levels()[i];
        let c2 = m2.levels()[i];
        assert(p1.spec_width() > 1 && is_half_of(&p1, &m1.levels()[(i - 1) + 1]));
        assert(p2.spec_width() > 1 && is_half_of(&p2, &m2.levels()[(i - 1) + 1]));
        assert forall|x: int, y: int| c1.contains(x, y) implies #[trigger] c1.texel(x, y) == c2.texel(
            x,
            y,
        ) by {
            assert(c1.texel(x, y) == half_texel(&p1, x, y));
            assert(c2.texel(x, y) == half_texel(&p2, x, y));
            assert(p1.contains(2 * x, 2 * y) && p1.contains(2 * x + 1, 2 * y + 1));
            assert(p1.texel(2 * x, 2 * y) == p2.texel(2 * x, 2 * y));
            assert(p1.texel(2 * x + 1, 2 * y) == p2.texel(2 * x + 1, 2 * y));
            assert(p1.texel(2 * x, 2 * y + 1) == p2.texel(2 * x, 2 * y + 1));
            assert(p1.texel(2 * x + 1, 2 * y + 1) == p2.texel(2 * x + 1, 2 * y + 1));
        }
    }
}

/// An RGBA mip chain is determined by its first level: two well-formed chains whose level
/// 0 shows the same picture have the same number of levels, each showing the same picture.
pub proof fn lemma_chain_determined(m1: &MipTexture, m2: &MipTexture)
    requires
        m1.wf(),
        m2.wf(),
        m1.levels()[0].same_picture(&m2.levels()[0]),
    ensures
        m1.levels().len() == m2.levels().len(),
        forall|i: int| 0 <= i < m1.levels().len() ==> (#[trigger] m1.levels()[i]).same_picture(
            &m2.levels()[i],
        ),
        forall|i: int| 0 <= i < m1.levels().len() ==> (#[trigger] m1.levels()[i]).bytes()
            == m2.levels()[i].bytes(),
{
    let n1 = m1.levels().len() as int;
    let n2 = m2.levels().len() as int;
    if n1 < n2 {
        lemma_level_agrees(m1, m2, n1 - 1);
        assert(m2.levels()[n1 - 1].spec_width() > 1 && m2.levels()[n1 - 1].spec_height() > 1);
    } else if n2 < n1 {
        lemma_level_agrees(m1, m2, n2 - 1);
        assert(m1.levels()[n2 - 1].spec_width() > 1 && m1.levels()[n2 - 1].spec_height() > 1);
    }
    assert forall|i: int| 0 <= i < m1.levels().len() implies (#[trigger] m1.levels()[i]).same_picture(
        &m2.levels()[i],
    ) by {
        lemma_level_agrees(m1, m2, i);
    }
    assert forall|i: int| 0 <= i < m1.levels().len() implies (#[trigger] m1.levels()[i]).bytes()
        == m2.levels()[i].bytes() by {
        lemma_level_agrees(m1, m2, i);
        lemma_same_picture_same_bytes(&m1.levels()[i], &m2.levels()[i]);
    }
}

/// Level `i` (with `i <= min(a, b)`) of an RGBA chain whose level 0 is `2^a` by `2^b` is
/// `2^(a - i)` by `2^(b - i)`.
proof fn lemma_pow2_level(m: &MipTexture, a: nat, b: nat, i: int)
    requires
        m.wf(),
        m.levels()[0].spec_width() == pow2(a),
        m.levels()[0].spec_height() == pow2(b),
        0 <= i < m.levels().len(),
        i <= a,
        i <= b,
    ensures
        m.levels()[i].spec_width() == pow2((a - i) as nat),
        m.levels()[i].spec_height() == pow2((b - i) as nat),
    decreases i,
{
    if i > 0 {
        lemma_pow2_level(m, a, b, i - 1);
        assert(m.levels()[i - 1].spec_width() > 1 && is_half_of(&m.levels()[i - 1], &m.levels()[(i - 1) + 1]));
        lemma_pow2_half((a - (i - 1)) as nat);
        lemma_pow2_half((b - (i - 1)) as nat);
    }
}

/// The levels of a well-formed RGBA chain whose level 0 is `2^a` by `2^b` are `2^(a - i)`
/// by `2^(b - i)` down to level `min(a, b)`, the last one: the chain has `1 + min(a, b)`
/// levels.
pub proof fn lemma_pow2_levels(m: &MipTexture, a: nat, b: nat)
    requires
        m.wf(),
        m.levels()[0].spec_width() == pow2(a),
        m.levels()[0].spec_height() == pow2(b),
    ensures
        m.levels().len() == 1 + if a <= b { a } else { b },
        forall|i: int|
            0 <= i < m.levels().len() ==> (#[trigger] m.levels()[i]).spec_width() == pow2((a - i) as nat)
                && m.levels()[i].spec_height() == pow2((b - i) as nat),
{
    let k: int = if a <= b { a as int } else { b as int };
    let n = m.levels().len() as int;
    assert forall|i: int| 0 <= i < n && i <= k implies (#[trigger] m.levels()[i]).spec_width()
        == pow2((a - i) as nat) && m.levels()[i].spec_height() == pow2((b - i) as nat) by {
        lemma_pow2_level(m, a, b, i);
    }
    if n - 1 < k {
        let l = m.levels()[n - 1];
        lemma_pow2_half((a - (n - 1)) as nat);
        lemma_pow2_half((b - (n - 1)) as nat);
        assert(l.spec_width() <= 1 || l.spec_height() <= 1);
    } else if n - 1 > k {
        lemma_pow2_half(1);
        assert(pow2(0) == 1);
        assert(m.levels()[k].spec_width() > 1 && m.levels()[k].spec_height() > 1);
        assert(m.levels()[k].spec_width() == pow2((a - k) as nat));
        assert(m.levels()[k].spec_height() == pow2((b - k) as nat));
    }
}

// ============================================================================
// Procedural Texture Generators
// ============================================================================

/// The checkerboard texel at `(x, y)`: `c1` on tiles whose tile coordinates sum to an
/// even number, `c2` elsewhere; always opaque.
pub open spec fn checker_texel(x: int, y: int, tile_size: int, c1: (u8, u8, u8), c2: (u8, u8, u8)) -> Texel {
    if (x / tile_size + y / tile_size) % 2 == 0 {
        (c1.0, c1.1, c1.2, 255u8)
    } else {
        (c2.0, c2.1, c2.2, 255u8)
    }
}

/// The XOR-pattern texel at `(x, y)`: grey level `(x ^ y) & 0xFF`, opaque.
pub open spec fn xor_texel(x: u32, y: u32) -> Texel {
    let v = (x ^ y) as u8;
    (v, v, v, 255u8)
}

impl Texture {
    /// Generate a `size` by `size` checkerboard with square tiles of `tile_size` texels.
    pub fn checkerboard(size: u32, tile_size: u32, c1: (u8, u8, u8), c2: (u8, u8, u8)) -> (t: Self)
        requires
            size * size * 4 <= u32::MAX,
            size > 0 ==> tile_size > 0,
        ensures
            t.wf(),
            t.spec_width() == size,
            t.spec_height() == size,
            forall|x: int, y: int|
                t.contains(x, y) ==> #[trigger] t.texel(x, y) == checker_texel(x, y, tile_size as int, c1, c2),
    {
        let mut tex = Self::new(size, size);
        let mut y: u32 = 0;
        while y < size
            invariant
                tex.wf(),
                tex.spec_width() == size,
                tex.spec_height() == size,
                size > 0 ==> tile_size > 0,
                y <= size,
                forall|xx: int, yy: int|
                    tex.contains(xx, yy) ==> #[trigger] tex.texel(xx, yy) == if yy < y {
                        checker_texel(xx, yy, tile_size as int, c1, c2)
                    } else {
                        (0u8, 0u8, 0u8, 0u8)
                    },
            decreases size - y,
        {
            let mut x: u32 = 0;
            while x < size
                invariant
                    tex.wf(),
                    tex.spec_width() == size,
                    tex.spec_height() == size,
                    tile_size > 0,
                    y < size,
                    x <= size,
                    forall|xx: int, yy: int|
                        tex.contains(xx, yy) ==> #[trigger] tex.texel(xx, yy) == if yy < y || (yy == y
                            && xx < x) {
                            checker_texel(xx, yy, tile_size as int, c1, c2)
                        } else {
                            (0u8, 0u8, 0u8, 0u8)
                        },
                decreases size - x,
            {
                let checker = ((x / tile_size) as u64 + (y / tile_size) as u64) % 2 == 0;
                let (r, g, b) = if checker { c1 } else { c2 };
                tex.set_pixel(x, y, r, g, b, 255);
                x = x + 1;
            }
            y = y + 1;
        }
        tex
    }

    /// Generate a `size` by `size` XOR pattern (classic demoscene texture).
    pub fn xor_pattern(size: u32) -> (t: Self)
        requires
            size * size * 4 <= u32::MAX,
        ensures
            t.wf(),
            t.spec_width() == size,
            t.spec_height() == size,
            forall|x: int, y: int| t.contains(x, y) ==> #[trigger] t.texel(x, y) == xor_texel(x as u32, y as u32),
    {
        let mut tex = Self::new(size, size);
        let mut y: u32 = 0;
        while y < size
            invariant
                tex.wf(),
                tex.spec_width() == size,
                tex.spec_height() == size,
                y <= size,
                forall|xx: int, yy: int|
                    tex.contains(xx, yy) ==> #[trigger] tex.texel(xx, yy) == if yy < y {
                        xor_texel(xx as u32, yy as u32)
                    } else {
                        (0u8, 0u8, 0u8, 0u8)
                    },
            decreases size - y,
        {
            let mut x: u32 = 0;
            while x < size
                invariant
                    tex.wf(),
                    tex.spec_width() == size,
                    tex.spec_height() == size,
                    y < size,
                    x <= size,
                    forall|xx: int, yy: int|
                        tex.contains(xx, yy) ==> #[trigger] tex.texel(xx, yy) == if yy < y || (yy == y
                            && xx < x) {
                            xor_texel(xx as u32, yy as u32)
                        } else {
                            (0u8, 0u8, 0u8, 0u8)
                        },
                decreases size - x,
            {
                let v = (x ^ y) as u8;
                tex.set_pixel(x, y, v, v, v, 255);
                x = x + 1;
            }
            y = y + 1;
        }
        tex
    }
}

} // verus!
