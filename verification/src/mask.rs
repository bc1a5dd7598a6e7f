//! The coverage mask and its byte-level primitives.
use vstd::prelude::*;
use vstd::std_specs::iter::IteratorSpec;

verus! {

/// Why an operation on a [`Mask`] was refused.
#[derive(Debug, Clone, Copy, PartialEq, Eq, Structural)]
pub enum MaskError {
    /// The buffer of `width * height` bytes would not be addressable.
    InvalidDimensions,
    /// A pixel range or a row lies outside the buffer.
    OutOfBounds,
    /// A scan buffer is not one row of the mask's width.
    DimensionMismatch,
    /// The mask could not be encoded as an image.
    Encoding,
}

/// The mathematical content of a [`Mask`]: its dimensions and its bytes in
/// row-major order, the pixel at column `x` of row `y` at index `y * width + x`.
pub struct MaskView {
    pub width: u32,
    pub height: u32,
    pub pixels: Seq<u8>,
}

/// The longest buffer that can be addressed on this machine.
pub open spec fn max_len() -> int {
    isize::MAX as int
}

impl MaskView {
    /// The number of bytes that the dimensions call for.
    pub open spec fn area(self) -> int {
        self.width * self.height
    }

    /// The buffer holds exactly one byte per pixel.
    pub open spec fn wf(self) -> bool {
        self.pixels.len() == self.area()
    }

    /// The all-zero mask of the given dimensions.
    pub open spec fn zeroed(width: u32, height: u32) -> MaskView {
        MaskView { width, height, pixels: Seq::new((width * height) as nat, |i: int| 0u8) }
    }

    /// This mask with the `len` bytes from index `start` on replaced by `value`.
    pub open spec fn fill(self, start: int, len: int, value: u8) -> MaskView {
        MaskView {
            pixels: Seq::new(
                self.pixels.len(),
                |i: int| if start <= i < start + len { value } else { self.pixels[i] },
            ),
            ..self
        }
    }

    /// This mask with the byte at index `x` replaced by `value`.
    pub open spec fn set(self, x: int, value: u8) -> MaskView {
        MaskView { pixels: self.pixels.update(x, value), ..self }
    }

    /// Whether this mask is a buffer for one row of `other`: one row tall
    /// and as wide as `other`.
    pub open spec fn is_row_of(self, other: MaskView) -> bool {
        self.height == 1 && self.width == other.width
    }

    /// The byte of the pixel at column `x` of row `y`.
    pub open spec fn pixel(self, x: int, y: int) -> u8 {
        self.pixels[y * self.width + x]
    }

    /// The index of the first byte of row `row`.
    pub open spec fn row_start(self, row: int) -> int {
        row * self.width
    }

    /// The bytes of row `row`.
    pub open spec fn row(self, row: int) -> Seq<u8> {
        self.pixels.subrange(self.row_start(row), self.row_start(row) + self.width)
    }

    /// This mask with the bytes of row `row` replaced by `bytes`.
    pub open spec fn with_row(self, row: int, bytes: Seq<u8>) -> MaskView {
        MaskView {
            pixels: self.pixels.subrange(0, self.row_start(row)) + bytes + self.pixels.subrange(
                self.row_start(row) + self.width,
                self.pixels.len() as int,
            ),
            ..self
        }
    }

    /// This mask after the one-row buffer `scan` was added into row `row`,
    /// byte by byte and clamped at 255; the other rows stay as they are.
    pub open spec fn accumulate(self, scan: Seq<u8>, row: int) -> MaskView {
        MaskView {
            pixels: Seq::new(
                self.pixels.len(),
                |i: int|
                    if self.row_start(row) <= i < self.row_start(row) + self.width {
                        saturating_add(self.pixels[i], scan[i - self.row_start(row)])
                    } else {
                        self.pixels[i]
                    },
            ),
            ..self
        }
    }
}

/// The sum of two bytes, clamped at 255.
pub open spec fn saturating_add(a: u8, b: u8) -> u8 {
    if a + b > 255 {
        255u8
    } else {
        (a + b) as u8
    }
}

/// The byte-wise clamped sum of two buffers of one length.
pub open spec fn saturating_sum(a: Seq<u8>, b: Seq<u8>) -> Seq<u8> {
    Seq::new(a.len(), |i: int| saturating_add(a[i], b[i]))
}

/// Every row of a well-formed mask lies inside its buffer.
pub proof fn lemma_row_in_bounds(m: MaskView, row: int)
    requires
        m.wf(),
        0 <= row < m.height,
    ensures
        0 <= m.row_start(row),
        m.row_start(row) + m.width <= m.pixels.len(),
        m.row(row).len() == m.width,
{
    assert(0 <= row * m.width && (row + 1) * m.width <= m.height * m.width) by (nonlinear_arith)
        requires
            0 <= row < m.height,
            0 <= m.width,
    ;
    assert((row + 1) * m.width == row * m.width + m.width) by (nonlinear_arith);
    assert(m.height * m.width == m.width * m.height) by (nonlinear_arith);
}

/// Coverage never wraps: where one scan row is accumulated twice into a row,
/// each byte of that row ends as its old value plus twice the scan's byte,
/// clamped at 255.
pub proof fn lemma_accumulate_twice(m: MaskView, scan: Seq<u8>, row: int, x: int)
    requires
        m.wf(),
        0 <= row < m.height,
        scan.len() == m.width,
        0 <= x < m.width,
    ensures
        ({
            let i = m.row_start(row) + x;
            let sum = m.pixels[i] + 2 * scan[x];
            m.accumulate(scan, row).accumulate(scan, row).pixels[i] == if sum > 255 {
                255
            } else {
                sum
            }
        }),
{
    lemma_row_in_bounds(m, row);
}

/// The low eight bits of `value`: what a pixel keeps of a wider coverage value.
pub open spec fn low_byte(value: i32) -> u8 {
    (value % 256) as u8
}

/// An 8-bit alpha image mask.
#[derive(Debug)]
pub struct Mask {
    width: u32,
    height: u32,
    pixels: Vec<u8>,
}

impl View for Mask {
    type V = MaskView;

    closed spec fn view(&self) -> MaskView {
        MaskView { width: self.width, height: self.height, pixels: self.pixels@ }
    }
}

impl Mask {
    /// Creates a zero-filled mask of `width` by `height` pixels, unless a
    /// buffer of that many bytes would exceed the addressable length.
    pub fn new(width: u32, height: u32) -> (r: Result<Mask, MaskError>)
        ensures
            width * height <= max_len() ==> r is Ok && r->Ok_0@ == MaskView::zeroed(width, height),
            r is Ok ==> r->Ok_0@.wf(),
            width * height > max_len() ==> r == Err::<Mask, MaskError>(MaskError::InvalidDimensions),
    {
        assert(width * height <= 0xffff_ffff * 0xffff_ffff) by (nonlinear_arith)
            requires
                0 <= width <= 0xffff_ffff,
                0 <= height <= 0xffff_ffff,
        ;
        let area: u64 = (width as u64) * (height as u64);
        if area > (isize::MAX as u64) {
            return Err(MaskError::InvalidDimensions);
        }
        let pixels = vec![0u8; area as usize];
        let m = Mask { width, height, pixels };
        assert(m@.pixels =~= MaskView::zeroed(width, height).pixels);
        Ok(m)
    }

    /// The width in pixels.
    pub fn width(&self) -> (w: u32)
        ensures
            w == self@.width,
    {
        self.width
    }

    /// The height in pixels.
    pub fn height(&self) -> (h: u32)
        ensures
            h == self@.height,
    {
        self.height
    }

    /// The coverage bytes in row-major order, one per pixel.
    pub fn pixels(&self) -> (s: &[u8])
        ensures
            s@ == self@.pixels,
    {
        self.pixels.as_slice()
    }

    /// An iterator over the coverage bytes in row-major order.
    pub fn iter(&self) -> (it: std::slice::Iter<'_, u8>)
        ensures
            it.remaining() == self@.pixels.as_ref(),
            it.decrease() is Some,
            it.initial_value_relation(&it),
    {
        self.pixels.as_slice().iter()
    }

    /// Overwrites `len` consecutive bytes from index `x` on with `v`. A range
    /// that does not lie inside the buffer is refused and nothing is written.
    pub fn fill(&mut self, x: usize, len: usize, v: u8) -> (r: Result<(), MaskError>)
        requires
            old(self)@.wf(),
        ensures
            final(self)@.wf(),
            x + len <= old(self)@.pixels.len() ==> r is Ok && final(self)@ == old(self)@.fill(
                x as int,
                len as int,
                v,
            ),
            x + len > old(self)@.pixels.len() ==> r == Err::<(), MaskError>(MaskError::OutOfBounds)
                && final(self)@ == old(self)@,
    {
        let n = self.pixels.len();
        if len > n || x > n - len {
            return Err(MaskError::OutOfBounds);
        }
        let end = x + len;
        let mut i = x;
        while i < end
            invariant
                x <= i <= end <= n,
                n == self.pixels@.len() == self.width * self.height,
                self.width == old(self).width,
                self.height == old(self).height,
                self.pixels@.len() == old(self).pixels@.len(),
                forall|j: int| x <= j < i ==> self.pixels@[j] == v,
                forall|j: int|
                    0 <= j < n && !(x <= j < i) ==> self.pixels@[j] == old(self).pixels@[j],
            decreases end - i,
        {
            self.pixels[i] = v;
            i += 1;
        }
        assert(self@.pixels =~= old(self)@.fill(x as int, len as int, v).pixels);
        Ok(())
    }

    /// Writes the low byte of `v` to the pixel at column `x` of the first row.
    /// A column outside the mask, or a mask without rows, is refused.
    pub fn set(&mut self, x: i32, v: i32) -> (r: Result<(), MaskError>)
        requires
            old(self)@.wf(),
        ensures
            final(self)@.wf(),
            0 <= x < old(self)@.width && old(self)@.height > 0 ==> r is Ok
                && final(self)@ == old(self)@.set(x as int, low_byte(v)),
            !(0 <= x < old(self)@.width && old(self)@.height > 0) ==> r == Err::<(), MaskError>(
                MaskError::OutOfBounds,
            ) && final(self)@ == old(self)@,
    {
        if x < 0 || (x as u32) >= self.width || self.height == 0 {
            return Err(MaskError::OutOfBounds);
        }
        assert(x < self.width * self.height) by (nonlinear_arith)
            requires
                x < self.width,
                self.height >= 1,
        ;
        let byte = #[verifier::truncate] (v as u8);
        assert(byte == low_byte(v)) by (bit_vector)
            requires
                byte == v as u8,
        ;
        self.pixels[x as usize] = byte;
        Ok(())
    }

    /// Adds the one-row buffer `scan_buf` into row `row`, byte by byte and
    /// clamped at 255. A buffer that is not one row of this mask's width is
    /// refused, and so is a row outside the mask; nothing is written then.
    pub fn accumulate(&mut self, scan_buf: &Mask, row: u32) -> (r: Result<(), MaskError>)
        requires
            old(self)@.wf(),
            scan_buf@.wf(),
        ensures
            final(self)@.wf(),
            !scan_buf@.is_row_of(old(self)@) ==> r == Err::<(), MaskError>(
                MaskError::DimensionMismatch,
            ) && final(self)@ == old(self)@,
            scan_buf@.is_row_of(old(self)@) && row >= old(self)@.height ==> r == Err::<
                (),
                MaskError,
            >(MaskError::OutOfBounds) && final(self)@ == old(self)@,
            scan_buf@.is_row_of(old(self)@) && row < old(self)@.height ==> r is Ok
                && final(self)@ == old(self)@.accumulate(scan_buf@.pixels, row as int),
    {
        if scan_buf.height != 1 || self.width != scan_buf.width {
            return Err(MaskError::DimensionMismatch);
        }
        if row >= self.height {
            return Err(MaskError::OutOfBounds);
        }
        proof {
            lemma_row_in_bounds(self@, row as int);
            assert(scan_buf@.pixels.len() == self@.width) by (nonlinear_arith)
                requires
                    scan_buf@.pixels.len() == scan_buf@.width * scan_buf@.height,
                    scan_buf@.height == 1,
                    scan_buf@.width == self@.width,
            ;
        }
        let pix = self.scan_line(row);
        let buf = scan_buf.pixels.as_slice();
        accum(pix, buf);
        assert(self@.pixels =~= old(self)@.accumulate(scan_buf@.pixels, row as int).pixels);
        Ok(())
    }

    /// Borrows one scan line (row) of the buffer for writing; what is written
    /// to it replaces that row, and the other rows stay as they are.
    pub fn scan_line(&mut self, row: u32) -> (line: &mut [u8])
        requires
            old(self)@.wf(),
            row < old(self)@.height,
        ensures
            line@ == old(self)@.row(row as int),
            final(self)@ == old(self)@.with_row(row as int, final(line)@),
    {
        proof {
            lemma_row_in_bounds(self@, row as int);
        }
        let w = self.width as usize;
        let n = self.pixels.len();
        let ghost start = self@.row_start(row as int);
        assert(0 <= start && start + w <= n);
        assert(row * w == start);
        let s = (row as usize) * w;
        let ghost after = final(self)@;
        let (head, rest) = self.pixels.as_mut_slice().split_at_mut(s);
        let (line, tail) = rest.split_at_mut(w);
        assert(line@ =~= old(self)@.row(row as int));
        assert(head@ =~= old(self)@.pixels.subrange(0, start));
        assert(tail@ =~= old(self)@.pixels.subrange(start + w, n as int));
        assert(after.pixels =~= old(self)@.with_row(row as int, final(line)@).pixels);
        line
    }

    /// Resets every byte to 0.
    pub fn clear(&mut self)
        requires
            old(self)@.wf(),
        ensures
            final(self)@.wf(),
            final(self)@ == MaskView::zeroed(old(self)@.width, old(self)@.height),
    {
        let len = self.pixels.len();
        let _ = self.fill(0, len, 0);
        assert(self@.pixels =~= MaskView::zeroed(self.width, self.height).pixels);
    }
}

/// Adds `b` into `a`, byte by byte and clamped at 255.
pub fn accum(a: &mut [u8], b: &[u8])
    requires
        old(a)@.len() == b@.len(),
    ensures
        final(a)@ == saturating_sum(old(a)@, b@),
{
    let n = a.len();
    let mut i: usize = 0;
    while i < n
        invariant
            i <= n,
            n == a@.len() == b@.len() == old(a)@.len(),
            forall|j: int| 0 <= j < i ==> a@[j] == saturating_add(old(a)@[j], b@[j]),
            forall|j: int| i <= j < n ==> a@[j] == old(a)@[j],
        decreases n - i,
    {
        a[i] = a[i].saturating_add(b[i]);
        i += 1;
    }
    assert(a@ =~= saturating_sum(old(a)@, b@));
}

} // verus!
