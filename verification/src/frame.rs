use vstd::prelude::*;

verus! {

/// Size of a presentation surface.
#[derive(Debug, Clone, Copy, Default, PartialEq, Eq)]
pub struct RendererExtent {
    pub width: u32,
    pub height: u32,
}

/// An RGBA image in memory, rows from the top.
#[derive(Debug, Clone)]
pub struct CpuFrame {
    width: u32,
    height: u32,
    pixels: Vec<[u8; 4]>,
}

impl CpuFrame {
    pub closed spec fn spec_width(&self) -> u32 {
        self.width
    }

    pub closed spec fn spec_height(&self) -> u32 {
        self.height
    }

    /// The pixels, row by row.
    pub closed spec fn spec_pixels(&self) -> Seq<[u8; 4]> {
        self.pixels@
    }

    /// One pixel per position.
    pub open spec fn wf(&self) -> bool {
        self.spec_pixels().len() == self.spec_width() as int * self.spec_height() as int
    }

    /// The pixel at `(x, y)`; transparent black outside the image.
    pub open spec fn pixel_at(&self, x: int, y: int) -> [u8; 4] {
        if 0 <= x < self.spec_width() && 0 <= y < self.spec_height() {
            self.spec_pixels()[y * self.spec_width() + x]
        } else {
            [0u8, 0u8, 0u8, 0u8]
        }
    }

    /// A `width` by `height` image, all transparent black.
    pub fn new(width: u32, height: u32) -> (f: CpuFrame)
        requires
            width as int * height as int <= usize::MAX,
        ensures
            f.wf(),
            f.spec_width() == width,
            f.spec_height() == height,
            forall|x: int, y: int| #[trigger] f.pixel_at(x, y) == [0u8, 0u8, 0u8, 0u8],
    {
        let n = (width as usize) * (height as usize);
        let pixels = vec![[0u8, 0u8, 0u8, 0u8]; n];
        let f = CpuFrame { width, height, pixels };
        proof {
            assert forall|x: int, y: int| #[trigger] f.pixel_at(x, y) == [0u8, 0u8, 0u8, 0u8] by {
                if 0 <= x < width && 0 <= y < height {
                    lemma_index_in_frame(x, y, width as int, height as int);
                }
            }
        }
        f
    }

    pub fn width(&self) -> (w: u32)
        ensures
            w == self.spec_width(),
    {
        self.width
    }

    pub fn height(&self) -> (h: u32)
        ensures
            h == self.spec_height(),
    {
        self.height
    }

    /// The pixel at `(x, y)`; transparent black outside the image.
    pub fn pixel(&self, x: u32, y: u32) -> (p: [u8; 4])
        requires
            self.wf(),
        ensures
            p == self.pixel_at(x as int, y as int),
    {
        let len = self.pixels.len();
        if x < self.width && y < self.height {
            proof {
                lemma_index_in_frame(x as int, y as int, self.width as int, self.height as int);
            }
            self.pixels[(y as usize) * (self.width as usize) + (x as usize)]
        } else {
            [0, 0, 0, 0]
        }
    }

    /// Sets the pixel at `(x, y)`; nothing happens outside the image.
    pub fn set_pixel(&mut self, x: u32, y: u32, color: [u8; 4])
        requires
            old(self).wf(),
        ensures
            final(self).wf(),
            final(self).spec_width() == old(self).spec_width(),
            final(self).spec_height() == old(self).spec_height(),
            forall|px: int, py: int|
                #[trigger] final(self).pixel_at(px, py) == if px == x && py == y && x < old(self).spec_width() && y
                    < old(self).spec_height() {
                    color
                } else {
                    old(self).pixel_at(px, py)
                },
    {
        let len = self.pixels.len();
        if x < self.width && y < self.height {
            proof {
                lemma_index_in_frame(x as int, y as int, self.width as int, self.height as int);
            }
            let i = (y as usize) * (self.width as usize) + (x as usize);
            self.pixels.set(i, color);
            proof {
                assert forall|px: int, py: int|
                    #[trigger] self.pixel_at(px, py) == if px == x && py == y {
                        color
                    } else {
                        old(self).pixel_at(px, py)
                    } by {
                    if 0 <= px < self.width && 0 <= py < self.height {
                        lemma_index_in_frame(px, py, self.width as int, self.height as int);
                        if py * self.width + px == y * self.width + x {
                            lemma_index_distinct(px, py, x as int, y as int, self.width as int);
                        }
                    }
                }
            }
        }
    }

    /// Sets every pixel to `color`.
    pub fn clear(&mut self, color: [u8; 4])
        requires
            old(self).wf(),
        ensures
            final(self).wf(),
            final(self).spec_width() == old(self).spec_width(),
            final(self).spec_height() == old(self).spec_height(),
            forall|x: int, y: int|
                0 <= x < final(self).spec_width() && 0 <= y < final(self).spec_height()
                    ==> #[trigger] final(self).pixel_at(x, y) == color,
    {
        let n = self.pixels.len();
        let mut i: usize = 0;
        while i < n
            invariant
                n == self.pixels@.len(),
                i <= n,
                self.width == old(self).width,
                self.height == old(self).height,
                forall|j: int| 0 <= j < i ==> #[trigger] self.pixels@[j] == color,
            decreases n - i,
        {
            self.pixels.set(i, color);
            i = i + 1;
        }
        proof {
            assert forall|x: int, y: int|
                0 <= x < self.spec_width() && 0 <= y < self.spec_height() implies #[trigger] self.pixel_at(x, y)
                == color by {
                lemma_index_in_frame(x, y, self.width as int, self.height as int);
            }
        }
    }
}

/// Row-major index of a position within the image.
proof fn lemma_index_in_frame(x: int, y: int, w: int, h: int)
    requires
        0 <= x < w,
        0 <= y < h,
    ensures
        0 <= y * w + x < w * h,
{
    assert(y * w + x < w * h) by (nonlinear_arith)
        requires
            0 <= x < w,
            0 <= y < h,
    ;
    assert(0 <= y * w) by (nonlinear_arith)
        requires
            0 <= y,
            0 <= w,
    ;
}

/// Distinct positions have distinct row-major indices.
proof fn lemma_index_distinct(x1: int, y1: int, x2: int, y2: int, w: int)
    requires
        0 <= x1 < w,
        0 <= x2 < w,
        y1 * w + x1 == y2 * w + x2,
    ensures
        x1 == x2 && y1 == y2,
{
    assert(x1 == x2 && y1 == y2) by (nonlinear_arith)
        requires
            0 <= x1 < w,
            0 <= x2 < w,
            y1 * w + x1 == y2 * w + x2,
    ;
}

/// Source position that nearest-neighbour scaling takes for output
/// position `i` of `out` from a source of length `src`.
pub open spec fn nearest(i: int, src: int, out: int) -> int {
    i * src / out
}

/// Enlarging by nearest neighbour keeps the corner pixels: the first output
/// position takes the first source position, and the last the last.
pub proof fn lemma_nearest_keeps_corners(src: int, out: int)
    requires
        0 < src <= out,
    ensures
        nearest(0, src, out) == 0,
        nearest(out - 1, src, out) == src - 1,
{
    assert(0 * src / out == 0) by (nonlinear_arith)
        requires
            out > 0,
    ;
    let q = (out - 1) * src;
    assert(out * (src - 1) <= q < out * src) by (nonlinear_arith)
        requires
            0 < src <= out,
            q == (out - 1) * src,
    ;
    vstd::arithmetic::div_mod::lemma_div_is_ordered(out * (src - 1), q, out);
    vstd::arithmetic::div_mod::lemma_div_multiples_vanish(src - 1, out);
    vstd::arithmetic::div_mod::lemma_multiply_divide_lt(q, out, src);
}

/// `source` scaled to `width` by `height` by nearest neighbour: output pixel
/// `(x, y)` is source pixel `(x * sw / width, y * sh / height)`.
pub fn scale_nearest(source: &CpuFrame, width: u32, height: u32) -> (out: CpuFrame)
    requires
        source.wf(),
        width as int * height as int <= usize::MAX,
    ensures
        out.wf(),
        out.spec_width() == width,
        out.spec_height() == height,
        forall|x: int, y: int|
            0 <= x < width && 0 <= y < height ==> #[trigger] out.pixel_at(x, y) == source.pixel_at(
                nearest(x, source.spec_width() as int, width as int),
                nearest(y, source.spec_height() as int, height as int),
            ),
{
    let mut out = CpuFrame::new(width, height);
    let sw = source.width();
    let sh = source.height();
    let mut y: u32 = 0;
    while y < height
        invariant
            out.wf(),
            source.wf(),
            out.spec_width() == width,
            out.spec_height() == height,
            sw == source.spec_width(),
            sh == source.spec_height(),
            y <= height,
            forall|px: int, py: int|
                0 <= px < width && 0 <= py < y ==> #[trigger] out.pixel_at(px, py) == source.pixel_at(
                    nearest(px, sw as int, width as int),
                    nearest(py, sh as int, height as int),
                ),
        decreases height - y,
    {
        proof {
            assert((y as u64) * (sh as u64) <= u64::MAX) by (nonlinear_arith)
                requires
                    y < 0x1_0000_0000,
                    sh < 0x1_0000_0000,
            ;
            assert((y as int) * (sh as int) / (height as int) < 0x1_0000_0000) by (nonlinear_arith)
                requires
                    y < height,
                    sh < 0x1_0000_0000,
                    height > 0,
            ;
        }
        let sy = ((y as u64) * (sh as u64) / (height as u64)) as u32;
        let mut x: u32 = 0;
        while x < width
            invariant
                out.wf(),
                source.wf(),
                out.spec_width() == width,
                out.spec_height() == height,
                sw == source.spec_width(),
                sh == source.spec_height(),
                y < height,
                x <= width,
                sy == nearest(y as int, sh as int, height as int),
                forall|px: int, py: int|
                    0 <= px < width && 0 <= py < y ==> #[trigger] out.pixel_at(px, py) == source.pixel_at(
                        nearest(px, sw as int, width as int),
                        nearest(py, sh as int, height as int),
                    ),
                forall|px: int| 0 <= px < x ==> #[trigger] out.pixel_at(px, y as int) == source.pixel_at(
                    nearest(px, sw as int, width as int),
                    nearest(y as int, sh as int, height as int),
                ),
            decreases width - x,
        {
            proof {
                assert((x as u64) * (sw as u64) <= u64::MAX) by (nonlinear_arith)
                    requires
                        x < 0x1_0000_0000,
                        sw < 0x1_0000_0000,
                ;
                assert((x as int) * (sw as int) / (width as int) < 0x1_0000_0000) by (nonlinear_arith)
                    requires
                        x < width,
                        sw < 0x1_0000_0000,
                        width > 0,
                ;
            }
            let sx = ((x as u64) * (sw as u64) / (width as u64)) as u32;
            let p = source.pixel(sx, sy);
            out.set_pixel(x, y, p);
            x = x + 1;
        }
        y = y + 1;
    }
    out
}

/// Clear colour of the sky for a dimension: dark red for the Nether
/// (`-1`), near black for the End (`1`), light blue elsewhere.
pub fn sky_color(dimension: i32) -> (c: [u8; 3])
    ensures
        c == if dimension == -1 {
            [48u8, 8u8, 8u8]
        } else if dimension == 1 {
            [8u8, 8u8, 16u8]
        } else {
            [126u8, 178u8, 255u8]
        },
{
    match dimension {
        -1 => [48, 8, 8],
        1 => [8, 8, 16],
        _ => [126, 178, 255],
    }
}

/// Index of the first memory type among `memoryTypeFlags` that `allowedTypes`
/// permits (bit `i` for type `i`) and whose property flags contain every
/// flag of `required`.
pub open spec fn memory_type_fits(flags: Seq<u32>, allowedTypes: u32, required: u32, i: int) -> bool {
    0 <= i < flags.len() && (allowedTypes >> (i as u32)) & 1 == 1 && flags[i] & required == required
}

/// The first memory type that fits; see [`memory_type_fits`].
pub fn findMemoryType(memoryTypeFlags: &[u32], allowedTypes: u32, required: u32) -> (r: Option<u32>)
    requires
        memoryTypeFlags@.len() <= 32,
    ensures
        match r {
            Some(i) => memory_type_fits(memoryTypeFlags@, allowedTypes, required, i as int) && forall|j: int|
                0 <= j < i ==> !#[trigger] memory_type_fits(memoryTypeFlags@, allowedTypes, required, j),
            None => forall|j: int| !#[trigger] memory_type_fits(memoryTypeFlags@, allowedTypes, required, j),
        },
{
    let n = memoryTypeFlags.len();
    let mut i: usize = 0;
    while i < n
        invariant
            n == memoryTypeFlags@.len(),
            n <= 32,
            i <= n,
            forall|j: int| 0 <= j < i ==> !#[trigger] memory_type_fits(memoryTypeFlags@, allowedTypes, required, j),
        decreases n - i,
    {
        let index = i as u32;
        if (allowedTypes >> index) & 1 == 1 && memoryTypeFlags[i] & required == required {
            return Some(index);
        }
        i = i + 1;
    }
    None
}

/// Preference of a physical device by its Vulkan type number: discrete
/// (`2`) first, then integrated (`1`), virtual (`3`), CPU (`4`), others.
pub open spec fn device_rank(deviceType: i32) -> u32 {
    if deviceType == 2 {
        0
    } else if deviceType == 1 {
        1
    } else if deviceType == 3 {
        2
    } else if deviceType == 4 {
        3
    } else {
        4
    }
}

/// Devices are preferred discrete (`2`), then integrated (`1`), virtual
/// (`3`), CPU (`4`), then any other type, all others alike; the best rank
/// is `0`.
pub proof fn lemma_device_preference(other: i32)
    ensures
        device_rank(2) == 0,
        device_rank(2) < device_rank(1),
        device_rank(1) < device_rank(3),
        device_rank(3) < device_rank(4),
        !(1 <= other <= 4) ==> device_rank(4) < device_rank(other) && device_rank(other) == device_rank(0),
{
}

/// Preference of a physical device; see [`device_rank`].
pub fn physicalDeviceRank(deviceType: i32) -> (r: u32)
    ensures
        r == device_rank(deviceType),
{
    match deviceType {
        2 => 0,
        1 => 1,
        3 => 2,
        4 => 3,
        _ => 4,
    }
}

/// Index of the first candidate with the lowest rank; none without
/// candidates.
pub fn selectPhysicalDevice(ranks: &[u32]) -> (r: Option<usize>)
    ensures
        match r {
            Some(i) => i < ranks@.len() && (forall|j: int| 0 <= j < ranks@.len() ==> ranks@[i as int] <= #[trigger] ranks@[j])
                && (forall|j: int| 0 <= j < i ==> ranks@[i as int] < #[trigger] ranks@[j]),
            None => ranks@.len() == 0,
        },
{
    if ranks.len() == 0 {
        return None;
    }
    let mut best: usize = 0;
    let mut i: usize = 1;
    while i < ranks.len()
        invariant
            1 <= i <= ranks@.len(),
            best < i,
            forall|j: int| 0 <= j < i ==> ranks@[best as int] <= #[trigger] ranks@[j],
            forall|j: int| 0 <= j < best ==> ranks@[best as int] < #[trigger] ranks@[j],
        decreases ranks@.len() - i,
    {
        if ranks[i] < ranks[best] {
            best = i;
        }
        i = i + 1;
    }
    Some(best)
}

/// Depth formats to try, best first, by their Vulkan numbers: 32-bit float
/// (`126`), 24-bit with stencil (`129`), 16-bit (`124`).
pub fn depth_format_candidates() -> (r: [i32; 3])
    ensures
        r@ == seq![126i32, 129i32, 124i32],
{
    let r = [126, 129, 124];
    proof {
        assert(r@ =~= seq![126i32, 129i32, 124i32]);
    }
    r
}

/// The format feature that a depth attachment needs.
pub const DEPTH_STENCIL_ATTACHMENT: u32 = 0x200;

/// The first depth format whose optimal-tiling features (`features[i]` for
/// candidate `i` of [`depth_format_candidates`]) allow a depth attachment;
/// none when no candidate does.
pub fn find_depth_format(features: &[u32; 3]) -> (r: Option<i32>)
    ensures
        ({
            let c = seq![126i32, 129i32, 124i32];
            match r {
                Some(f) => exists|i: int| 0 <= i < 3 && f == c[i] && features@[i] & 0x200 == 0x200
                    && forall|j: int| 0 <= j < i ==> #[trigger] features@[j] & 0x200 != 0x200,
                None => forall|j: int| 0 <= j < 3 ==> #[trigger] features@[j] & 0x200 != 0x200,
            }
        }),
{
    let candidates = depth_format_candidates();
    let mut i: usize = 0;
    while i < 3
        invariant
            i <= 3,
            candidates@ == seq![126i32, 129i32, 124i32],
            forall|j: int| 0 <= j < i ==> #[trigger] features@[j] & 0x200 != 0x200,
        decreases 3 - i,
    {
        if features[i] & DEPTH_STENCIL_ATTACHMENT == DEPTH_STENCIL_ATTACHMENT {
            return Some(candidates[i]);
        }
        i = i + 1;
    }
    None
}

/// Image aspects of a depth format: depth and stencil (`0x2 | 0x4`) for the
/// formats with a stencil part (`129`, `130`), depth (`0x2`) for the others.
pub fn depth_aspect(format: i32) -> (r: u32)
    ensures
        r == if format == 129 || format == 130 { 6u32 } else { 2u32 },
{
    match format {
        129 | 130 => 6,
        _ => 2,
    }
}

} // verus!
