//! The client-side copy of a remote desktop: an RGBA byte buffer, four
//! bytes per pixel, rows of `width * 4` bytes, updated rectangle by
//! rectangle.
use vstd::prelude::*;
use base64::Engine as _;

verus! {

/// A rectangle of the remote desktop, in pixels.
#[derive(Debug, Clone, Copy, PartialEq, Eq, Structural)]
pub struct FrameRect {
    pub x: u16,
    pub y: u16,
    pub width: u16,
    pub height: u16,
}

/// `fb` with the bytes of `src` written from offset `dst` on.
pub open spec fn blit(fb: Seq<u8>, dst: int, src: Seq<u8>) -> Seq<u8> {
    Seq::new(fb.len(), |i: int| if dst <= i < dst + src.len() { src[i - dst] } else { fb[i] })
}

/// Offset in a buffer `fb_width` pixels wide of the first byte of row
/// `row` of `rect`.
pub open spec fn row_offset(fb_width: u16, rect: FrameRect, row: int) -> int {
    (rect.y + row) * (fb_width * 4) + rect.x * 4
}

/// Bytes in one row of `rect`.
pub open spec fn row_bytes(rect: FrameRect) -> int {
    rect.width * 4
}

/// Whether row `row` of an update of `rect` fits both the buffer and the
/// incoming pixel data.
pub open spec fn update_row_fits(fb_len: int, data_len: int, fb_width: u16, rect: FrameRect, row: int) -> bool {
    &&& row_offset(fb_width, rect, row) + row_bytes(rect) <= fb_len
    &&& row * row_bytes(rect) + row_bytes(rect) <= data_len
}

/// How many of rows `0 .. n` satisfy `fits`, counting from the top up to
/// the first row that does not.
pub open spec fn leading_rows(fits: spec_fn(int) -> bool, n: nat) -> nat
    decreases n,
{
    if n == 0 {
        0
    } else {
        let k = leading_rows(fits, (n - 1) as nat);
        if k < n - 1 {
            k
        } else if fits(n - 1) {
            n
        } else {
            (n - 1) as nat
        }
    }
}

/// How many rows of an update get written.
pub open spec fn update_rows(fb_len: int, data_len: int, fb_width: u16, rect: FrameRect, n: nat) -> nat {
    leading_rows(|r: int| update_row_fits(fb_len, data_len, fb_width, rect, r), n)
}

/// `fb` after writing the first `n` rows of `data` into `rect`, top row
/// first.
pub open spec fn paint_rows(fb: Seq<u8>, fb_width: u16, rect: FrameRect, data: Seq<u8>, n: nat) -> Seq<u8>
    decreases n,
{
    if n == 0 {
        fb
    } else {
        let r = n - 1;
        blit(
            paint_rows(fb, fb_width, rect, data, (n - 1) as nat),
            row_offset(fb_width, rect, r),
            data.subrange(r * row_bytes(rect), r * row_bytes(rect) + row_bytes(rect)),
        )
    }
}

/// The buffer after an update of `rect` with pixel data `data`: rows are
/// written from the top, and writing stops at the first row that does not
/// fit the buffer or the data.
pub open spec fn spec_update_framebuffer(fb: Seq<u8>, fb_width: u16, rect: FrameRect, data: Seq<u8>) -> Seq<u8> {
    paint_rows(
        fb,
        fb_width,
        rect,
        data,
        update_rows(fb.len() as int, data.len() as int, fb_width, rect, rect.height as nat),
    )
}

proof fn lemma_leading_all(fits: spec_fn(int) -> bool, n: nat)
    requires
        forall|r: int| 0 <= r < n ==> #[trigger] fits(r),
    ensures
        leading_rows(fits, n) == n,
    decreases n,
{
    if n > 0 {
        lemma_leading_all(fits, (n - 1) as nat);
    }
}

proof fn lemma_leading_stop(fits: spec_fn(int) -> bool, stop: nat, n: nat)
    requires
        stop < n,
        forall|r: int| 0 <= r < stop ==> #[trigger] fits(r),
        !fits(stop as int),
    ensures
        leading_rows(fits, n) == stop,
    decreases n,
{
    if n == stop + 1 {
        lemma_leading_all(fits, stop);
    } else {
        lemma_leading_stop(fits, stop, (n - 1) as nat);
    }
}

proof fn lemma_update_rows_all_fit(fb_len: int, data_len: int, fb_width: u16, rect: FrameRect, n: nat)
    requires
        forall|r: int| 0 <= r < n ==> update_row_fits(fb_len, data_len, fb_width, rect, r),
    ensures
        update_rows(fb_len, data_len, fb_width, rect, n) == n,
{
    let fits = |r: int| update_row_fits(fb_len, data_len, fb_width, rect, r);
    assert forall|r: int| 0 <= r < n implies #[trigger] fits(r) by {}
    lemma_leading_all(fits, n);
}

proof fn lemma_update_rows_stop(fb_len: int, data_len: int, fb_width: u16, rect: FrameRect, stop: nat, n: nat)
    requires
        stop < n,
        forall|r: int| 0 <= r < stop ==> update_row_fits(fb_len, data_len, fb_width, rect, r),
        !update_row_fits(fb_len, data_len, fb_width, rect, stop as int),
    ensures
        update_rows(fb_len, data_len, fb_width, rect, n) == stop,
{
    let fits = |r: int| update_row_fits(fb_len, data_len, fb_width, rect, r);
    assert forall|r: int| 0 <= r < stop implies #[trigger] fits(r) by {}
    lemma_leading_stop(fits, stop, n);
}

/// Writes `src[src_at .. src_at + len]` into `fb` from `dst_at` on.
fn copy_bytes(fb: &mut Vec<u8>, dst_at: usize, src: &[u8], src_at: usize, len: usize)
    requires
        dst_at + len <= old(fb).len(),
        src_at + len <= src.len(),
    ensures
        final(fb)@ == blit(old(fb)@, dst_at as int, src@.subrange(src_at as int, src_at + len)),
{
    let mut j: usize = 0;
    while j < len
        invariant
            j <= len,
            dst_at + len <= fb.len(),
            src_at + len <= src.len(),
            fb@.len() == old(fb)@.len(),
            forall|i: int| 0 <= i < fb@.len() ==> #[trigger] fb@[i] == (if dst_at <= i < dst_at + j {
                src@[src_at + i - dst_at]
            } else {
                old(fb)@[i]
            }),
        decreases len - j,
    {
        fb.set(dst_at + j, src[src_at + j]);
        j = j + 1;
    }
    assert(fb@ =~= blit(old(fb)@, dst_at as int, src@.subrange(src_at as int, src_at + len)));
}

/// Update the buffer with incoming pixel data for `rect`, row by row from
/// the top, stopping at the first row that does not fit the buffer or the
/// data.
pub fn update_framebuffer(framebuffer: &mut Vec<u8>, fb_width: u16, rect: &FrameRect, data: &[u8])
    ensures
        final(framebuffer)@ == spec_update_framebuffer(old(framebuffer)@, fb_width, *rect, data@),
{
    let stride: u64 = fb_width as u64 * 4;
    let src_stride: u64 = rect.width as u64 * 4;
    let rect_h: u64 = rect.height as u64;
    let fb_len: u64 = framebuffer.len() as u64;
    let data_len: u64 = data.len() as u64;
    let ghost fb0 = framebuffer@;
    let mut row: u64 = 0;
    while row < rect_h
        invariant
            rect_h == rect.height,
            stride == fb_width * 4,
            src_stride == rect.width * 4,
            fb_len == framebuffer.len(),
            fb_len == fb0.len(),
            fb0 == old(framebuffer)@,
            data_len == data.len(),
            row <= rect_h,
            forall|r: int| 0 <= r < row ==> update_row_fits(fb0.len() as int, data@.len() as int, fb_width, *rect, r),
            framebuffer@ == paint_rows(fb0, fb_width, *rect, data@, row as nat),
        decreases rect_h - row,
    {
        assert((rect.y as u64 + row) * stride <= 131072u64 * 262144u64) by (nonlinear_arith)
            requires
                rect.y as u64 + row <= 131072,
                stride <= 262144,
        ;
        assert(row * src_stride <= 65536u64 * 262144u64) by (nonlinear_arith)
            requires
                row <= 65536,
                src_stride <= 262144,
        ;
        let dst_offset: u64 = (rect.y as u64 + row) * stride + rect.x as u64 * 4;
        let src_offset: u64 = row * src_stride;
        if dst_offset + src_stride > fb_len || src_offset + src_stride > data_len {
            proof {
                assert(!update_row_fits(fb0.len() as int, data@.len() as int, fb_width, *rect, row as int));
                lemma_update_rows_stop(fb0.len() as int, data@.len() as int, fb_width, *rect, row as nat, rect_h as nat);
            }
            return;
        }
        copy_bytes(framebuffer, dst_offset as usize, data, src_offset as usize, src_stride as usize);
        row = row + 1;
    }
    proof {
        lemma_update_rows_all_fit(fb0.len() as int, data@.len() as int, fb_width, *rect, rect_h as nat);
    }
}


// ── Copy within the buffer ────────────────────────────────────────

/// Width in pixels of the region that a copy moves.
pub open spec fn copy_width(src: FrameRect, dst: FrameRect) -> int {
    if dst.width <= src.width { dst.width as int } else { src.width as int }
}

/// Height in rows of the region that a copy moves.
pub open spec fn copy_height(src: FrameRect, dst: FrameRect) -> int {
    if dst.height <= src.height { dst.height as int } else { src.height as int }
}

/// Whether a copy goes bottom-to-top: when the destination lies below the
/// source, or on the same row and to its right.
pub open spec fn copy_reverse(src: FrameRect, dst: FrameRect) -> bool {
    dst.y > src.y || (dst.y == src.y && dst.x > src.x)
}

/// The row moved at step `i` of a copy.
pub open spec fn copy_row_at(src: FrameRect, dst: FrameRect, i: int) -> int {
    if copy_reverse(src, dst) { copy_height(src, dst) - 1 - i } else { i }
}

/// Offset of the first byte of row `row` of a rectangle at `(x, y)`.
pub open spec fn pixel_row_offset(fb_width: u16, x: u16, y: u16, row: int) -> int {
    (y + row) * (fb_width * 4) + x * 4
}

/// Whether row `row` of a copy lies within the buffer at both ends.
pub open spec fn copy_row_fits(fb_len: int, fb_width: u16, src: FrameRect, dst: FrameRect, row: int) -> bool {
    &&& pixel_row_offset(fb_width, src.x, src.y, row) + copy_width(src, dst) * 4 <= fb_len
    &&& pixel_row_offset(fb_width, dst.x, dst.y, row) + copy_width(src, dst) * 4 <= fb_len
}

/// The buffer after the first `n` steps of a copy; a step whose row does
/// not fit is skipped, and a row is read in full before it is written.
pub open spec fn copy_steps(fb: Seq<u8>, fb_width: u16, src: FrameRect, dst: FrameRect, n: nat) -> Seq<u8>
    decreases n,
{
    if n == 0 {
        fb
    } else {
        let prev = copy_steps(fb, fb_width, src, dst, (n - 1) as nat);
        let row = copy_row_at(src, dst, n - 1);
        if copy_row_fits(fb.len() as int, fb_width, src, dst, row) {
            let from = pixel_row_offset(fb_width, src.x, src.y, row);
            blit(
                prev,
                pixel_row_offset(fb_width, dst.x, dst.y, row),
                prev.subrange(from, from + copy_width(src, dst) * 4),
            )
        } else {
            prev
        }
    }
}

/// The buffer after copying the pixels of `src` to `dst` (the overlap of
/// the two sizes), row by row in the order that keeps overlapping rows
/// intact.
pub open spec fn spec_copy_framebuffer_rect(fb: Seq<u8>, fb_width: u16, src: FrameRect, dst: FrameRect) -> Seq<u8> {
    copy_steps(fb, fb_width, src, dst, copy_height(src, dst) as nat)
}

/// The bytes `v[from .. from + len]`.
fn bytes_from(v: &[u8], from: usize, len: usize) -> (out: Vec<u8>)
    requires
        from + len <= v.len(),
    ensures
        out@ == v@.subrange(from as int, from + len),
{
    let mut out: Vec<u8> = Vec::new();
    let mut j: usize = 0;
    while j < len
        invariant
            j <= len,
            from + len <= v.len(),
            out@ == v@.subrange(from as int, from + j),
        decreases len - j,
    {
        out.push(v[from + j]);
        j = j + 1;
        proof {
            assert(out@ =~= v@.subrange(from as int, from + j));
        }
    }
    out
}

/// Copy a rectangular region within the buffer (CopyRect).
///
/// When source and destination overlap vertically, rows are moved bottom
/// to top so that no source row is overwritten before it is read.
pub fn copy_framebuffer_rect(framebuffer: &mut Vec<u8>, fb_width: u16, src: &FrameRect, dst: &FrameRect)
    ensures
        final(framebuffer)@ == spec_copy_framebuffer_rect(old(framebuffer)@, fb_width, *src, *dst),
{
    let stride: u64 = fb_width as u64 * 4;
    let w: u64 = if dst.width <= src.width { dst.width as u64 } else { src.width as u64 };
    let h: u64 = if dst.height <= src.height { dst.height as u64 } else { src.height as u64 };
    let row_bytes: u64 = w * 4;
    let fb_len: u64 = framebuffer.len() as u64;
    let reverse = dst.y > src.y || (dst.y == src.y && dst.x > src.x);
    let ghost fb0 = framebuffer@;
    let mut i: u64 = 0;
    while i < h
        invariant
            stride == fb_width * 4,
            w == copy_width(*src, *dst),
            h == copy_height(*src, *dst),
            row_bytes == w * 4,
            reverse == copy_reverse(*src, *dst),
            fb_len == framebuffer.len(),
            fb0.len() == fb_len,
            fb0 == old(framebuffer)@,
            i <= h,
            framebuffer@ == copy_steps(fb0, fb_width, *src, *dst, i as nat),
        decreases h - i,
    {
        let row: u64 = if reverse { h - 1 - i } else { i };
        assert(row < 65536);
        assert((src.y as u64 + row) * stride <= 131072u64 * 262144u64) by (nonlinear_arith)
            requires
                src.y as u64 + row <= 131072,
                stride <= 262144,
        ;
        assert((dst.y as u64 + row) * stride <= 131072u64 * 262144u64) by (nonlinear_arith)
            requires
                dst.y as u64 + row <= 131072,
                stride <= 262144,
        ;
        let src_offset: u64 = (src.y as u64 + row) * stride + src.x as u64 * 4;
        let dst_offset: u64 = (dst.y as u64 + row) * stride + dst.x as u64 * 4;
        let ghost prev = framebuffer@;
        if src_offset + row_bytes > fb_len || dst_offset + row_bytes > fb_len {
            i = i + 1;
            continue;
        }
        let row_buf = bytes_from(framebuffer.as_slice(), src_offset as usize, row_bytes as usize);
        copy_bytes(framebuffer, dst_offset as usize, row_buf.as_slice(), 0, row_bytes as usize);
        proof {
            assert(row_buf@.subrange(0, row_bytes as int) =~= row_buf@);
        }
        i = i + 1;
    }
}

// ── Reading a rectangle back ──────────────────────────────────────

/// Whether row `row` of `rect` lies within a buffer of `fb_len` bytes.
pub open spec fn extract_row_fits(fb_len: int, fb_width: u16, rect: FrameRect, row: int) -> bool {
    row_offset(fb_width, rect, row) + row_bytes(rect) <= fb_len
}

/// How many rows of `rect` are read back.
pub open spec fn extract_rows(fb_len: int, fb_width: u16, rect: FrameRect) -> nat {
    leading_rows(|r: int| extract_row_fits(fb_len, fb_width, rect, r), rect.height as nat)
}

/// The bytes of the first `n` rows of `rect`, one after another.
pub open spec fn rows_of(fb: Seq<u8>, fb_width: u16, rect: FrameRect, n: nat) -> Seq<u8>
    decreases n,
{
    if n == 0 {
        Seq::empty()
    } else {
        let from = row_offset(fb_width, rect, n - 1);
        rows_of(fb, fb_width, rect, (n - 1) as nat) + fb.subrange(from, from + row_bytes(rect))
    }
}

/// The pixel data of `rect`, row after row, up to the first row that does
/// not lie within the buffer.
pub open spec fn spec_extract_rect(fb: Seq<u8>, fb_width: u16, rect: FrameRect) -> Seq<u8> {
    rows_of(fb, fb_width, rect, extract_rows(fb.len() as int, fb_width, rect))
}

/// Extract the pixel data of `rect` from the buffer.
pub fn extract_rect_from_framebuffer(framebuffer: &[u8], fb_width: u16, rect: &FrameRect) -> (out: Vec<u8>)
    ensures
        out@ == spec_extract_rect(framebuffer@, fb_width, *rect),
{
    let stride: u64 = fb_width as u64 * 4;
    let row_len: u64 = rect.width as u64 * 4;
    let rect_h: u64 = rect.height as u64;
    let fb_len: u64 = framebuffer.len() as u64;
    let ghost fits = |r: int| extract_row_fits(framebuffer@.len() as int, fb_width, *rect, r);
    let mut out: Vec<u8> = Vec::new();
    let mut row: u64 = 0;
    while row < rect_h
        invariant
            stride == fb_width * 4,
            row_len == rect.width * 4,
            rect_h == rect.height,
            fb_len == framebuffer.len(),
            fits == (|r: int| extract_row_fits(framebuffer@.len() as int, fb_width, *rect, r)),
            row <= rect_h,
            forall|r: int| 0 <= r < row ==> #[trigger] fits(r),
            out@ == rows_of(framebuffer@, fb_width, *rect, row as nat),
        decreases rect_h - row,
    {
        assert((rect.y as u64 + row) * stride <= 131072u64 * 262144u64) by (nonlinear_arith)
            requires
                rect.y as u64 + row <= 131072,
                stride <= 262144,
        ;
        let offset: u64 = (rect.y as u64 + row) * stride + rect.x as u64 * 4;
        if offset + row_len > fb_len {
            proof {
                assert(!fits(row as int));
                lemma_leading_stop(fits, row as nat, rect_h as nat);
            }
            return out;
        }
        let piece = bytes_from(framebuffer, offset as usize, row_len as usize);
        let ghost before = out@;
        let mut k: usize = 0;
        while k < piece.len()
            invariant
                k <= piece.len(),
                out@ == before + piece@.take(k as int),
            decreases piece.len() - k,
        {
            out.push(piece[k]);
            k = k + 1;
            proof {
                assert(out@ =~= before + piece@.take(k as int));
            }
        }
        proof {
            assert(piece@.take(piece@.len() as int) =~= piece@);
        }
        row = row + 1;
    }
    proof {
        lemma_leading_all(fits, rect_h as nat);
    }
    out
}


// ── Encoding ──────────────────────────────────────────────────────

/// The character for a six-bit value in the standard base64 alphabet
/// (RFC 4648): `A`-`Z`, `a`-`z`, `0`-`9`, `+`, `/`.
pub open spec fn base64_digit(v: int) -> char {
    if v < 26 {
        ((v + 65) as u32) as char
    } else if v < 52 {
        ((v - 26 + 97) as u32) as char
    } else if v < 62 {
        ((v - 52 + 48) as u32) as char
    } else if v == 62 {
        '+'
    } else {
        '/'
    }
}

/// The standard base64 text of `data` (RFC 4648, with padding): each group
/// of three bytes becomes four characters of six bits each, and a final
/// group of one or two bytes is padded with `=`.
pub open spec fn base64_standard(data: Seq<u8>) -> Seq<char>
    decreases data.len(),
{
    if data.len() == 0 {
        Seq::empty()
    } else if data.len() == 1 {
        seq![base64_digit(data[0] as int / 4), base64_digit((data[0] % 4) * 16), '=', '=']
    } else if data.len() == 2 {
        seq![
            base64_digit(data[0] as int / 4),
            base64_digit((data[0] % 4) * 16 + data[1] / 16),
            base64_digit((data[1] % 16) * 4),
            '=',
        ]
    } else {
        seq![
            base64_digit(data[0] as int / 4),
            base64_digit((data[0] % 4) * 16 + data[1] / 16),
            base64_digit((data[1] % 16) * 4 + data[2] / 64),
            base64_digit(data[2] as int % 64),
        ] + base64_standard(data.skip(3))
    }
}

/// Calls `base64::engine::general_purpose::STANDARD.encode`, which gives
/// the standard base64 text of the bytes, padded.
#[verifier::external_body]
pub fn base64_encode(data: &[u8]) -> (s: String)
    ensures
        s@ == base64_standard(data@),
{
    base64::engine::general_purpose::STANDARD.encode(data)
}

} // verus!

verus! {

// ── Laws ──────────────────────────────────────────────────────────

/// Two row segments of `len` bytes that start `x1` and `x2` bytes into
/// different buffer rows of `stride` bytes, and that end within their
/// rows, do not overlap.
proof fn lemma_segments_disjoint(y1: int, y2: int, stride: int, x1: int, x2: int, len: int, p: int)
    requires
        y1 != y2,
        0 <= y1,
        0 <= y2,
        0 <= x1,
        0 <= x2,
        0 <= len,
        x1 + len <= stride,
        x2 + len <= stride,
        y1 * stride + x1 <= p < y1 * stride + x1 + len,
    ensures
        !(y2 * stride + x2 <= p < y2 * stride + x2 + len),
{
    if y1 < y2 {
        assert((y1 + 1) * stride <= y2 * stride) by (nonlinear_arith)
            requires
                y1 + 1 <= y2,
                0 <= stride,
        ;
        assert((y1 + 1) * stride == y1 * stride + stride) by (nonlinear_arith);
    } else {
        assert((y2 + 1) * stride <= y1 * stride) by (nonlinear_arith)
            requires
                y2 + 1 <= y1,
                0 <= stride,
        ;
        assert((y2 + 1) * stride == y2 * stride + stride) by (nonlinear_arith);
    }
}

proof fn lemma_row_offsets_grow(fb_width: u16, rect: FrameRect, r1: int, r2: int)
    requires
        0 <= r1 <= r2,
    ensures
        row_offset(fb_width, rect, r1) <= row_offset(fb_width, rect, r2),
{
    let s = fb_width * 4;
    assert((rect.y + r1) * s <= (rect.y + r2) * s) by (nonlinear_arith)
        requires
            rect.y + r1 <= rect.y + r2,
            0 <= s,
    ;
}

proof fn lemma_paint_len(fb: Seq<u8>, fb_width: u16, rect: FrameRect, data: Seq<u8>, n: nat)
    ensures
        paint_rows(fb, fb_width, rect, data, n).len() == fb.len(),
    decreases n,
{
    if n > 0 {
        lemma_paint_len(fb, fb_width, rect, data, (n - 1) as nat);
    }
}

/// A painted row keeps the data written to it while later rows are
/// painted, when the rectangle lies within the buffer's width.
proof fn lemma_paint_row(fb: Seq<u8>, fb_width: u16, rect: FrameRect, data: Seq<u8>, n: nat, r: int, j: int)
    requires
        rect.x + rect.width <= fb_width,
        0 <= r < n,
        0 <= j < row_bytes(rect),
        row_offset(fb_width, rect, n - 1) + row_bytes(rect) <= fb.len(),
        (n as int) * row_bytes(rect) <= data.len(),
    ensures
        paint_rows(fb, fb_width, rect, data, n)[row_offset(fb_width, rect, r) + j] == data[r * row_bytes(rect) + j],
    decreases n,
{
    let rb = row_bytes(rect);
    let s = fb_width * 4;
    lemma_paint_len(fb, fb_width, rect, data, (n - 1) as nat);
    lemma_row_offsets_grow(fb_width, rect, r, n - 1);
    assert(r * rb + rb <= n * rb) by (nonlinear_arith)
        requires
            r < n,
            0 <= rb,
    ;
    assert(0 <= r * rb) by (nonlinear_arith)
        requires
            0 <= r,
            0 <= rb,
    ;
    if r == n - 1 {
    } else {
        lemma_row_offsets_grow(fb_width, rect, n - 2, n - 1);
        assert(((n - 1) as int) * rb <= n * rb) by (nonlinear_arith)
            requires
                0 <= rb,
        ;
        lemma_paint_row(fb, fb_width, rect, data, (n - 1) as nat, r, j);
        let p = row_offset(fb_width, rect, r) + j;
        assert(0 <= rect.y + r);
        lemma_segments_disjoint(rect.y + r, rect.y + n - 1, s, rect.x * 4, rect.x * 4, rb, p);
    }
}

/// Reading back a rectangle that was just written gives the written
/// pixels, when the rectangle lies within the buffer and the data covers
/// it.
pub proof fn law_extract_after_update(fb: Seq<u8>, fb_width: u16, rect: FrameRect, data: Seq<u8>)
    requires
        rect.x + rect.width <= fb_width,
        rect.height > 0 ==> row_offset(fb_width, rect, rect.height - 1) + row_bytes(rect) <= fb.len(),
        data.len() >= rect.width * rect.height * 4,
    ensures
        spec_extract_rect(spec_update_framebuffer(fb, fb_width, rect, data), fb_width, rect) == data.take(
            rect.width * rect.height * 4,
        ),
{
    let h = rect.height as nat;
    let rb = row_bytes(rect);
    assert(rect.width * rect.height * 4 == h * rb) by (nonlinear_arith)
        requires
            rb == rect.width * 4,
            h == rect.height,
    ;
    assert forall|r: int| 0 <= r < h implies #[trigger] update_row_fits(fb.len() as int, data.len() as int, fb_width, rect, r) by {
        lemma_row_offsets_grow(fb_width, rect, r, h - 1);
        assert(r * rb + rb <= h * rb) by (nonlinear_arith)
            requires
                r < h,
                0 <= rb,
        ;
    }
    lemma_update_rows_all_fit(fb.len() as int, data.len() as int, fb_width, rect, h);
    let painted = paint_rows(fb, fb_width, rect, data, h);
    lemma_paint_len(fb, fb_width, rect, data, h);
    let fits = |r: int| extract_row_fits(painted.len() as int, fb_width, rect, r);
    assert forall|r: int| 0 <= r < h implies #[trigger] fits(r) by {
        lemma_row_offsets_grow(fb_width, rect, r, h - 1);
    }
    lemma_leading_all(fits, h);
    lemma_rows_of_painted(fb, fb_width, rect, data, h, h);
}

proof fn lemma_rows_of_painted(fb: Seq<u8>, fb_width: u16, rect: FrameRect, data: Seq<u8>, h: nat, k: nat)
    requires
        rect.x + rect.width <= fb_width,
        k <= h,
        h == rect.height,
        h > 0 ==> row_offset(fb_width, rect, h - 1) + row_bytes(rect) <= fb.len(),
        h * row_bytes(rect) <= data.len(),
    ensures
        rows_of(paint_rows(fb, fb_width, rect, data, h), fb_width, rect, k) == data.take(k * row_bytes(rect)),
    decreases k,
{
    let rb = row_bytes(rect);
    let painted = paint_rows(fb, fb_width, rect, data, h);
    if k == 0 {
        assert(k * rb == 0) by (nonlinear_arith)
            requires
                k == 0,
        ;
        assert(data.take(0) =~= Seq::<u8>::empty());
    } else {
        lemma_rows_of_painted(fb, fb_width, rect, data, h, (k - 1) as nat);
        let from = row_offset(fb_width, rect, k - 1);
        lemma_row_offsets_grow(fb_width, rect, k - 1, h - 1);
        lemma_paint_len(fb, fb_width, rect, data, h);
        assert(((k - 1) as int) * rb + rb == k * rb) by (nonlinear_arith);
        assert(k * rb <= h * rb) by (nonlinear_arith)
            requires
                k <= h,
                0 <= rb,
        ;
        assert(0 <= ((k - 1) as int) * rb) by (nonlinear_arith)
            requires
                1 <= k,
                0 <= rb,
        ;
        assert forall|j: int| 0 <= j < rb implies #[trigger] painted.subrange(from, from + rb)[j] == data.subrange(
            (k - 1) * rb,
            k * rb,
        )[j] by {
            lemma_paint_row(fb, fb_width, rect, data, h, k - 1, j);
        }
        assert(painted.subrange(from, from + rb) =~= data.subrange((k - 1) * rb, k * rb));
        let prev_rows = rows_of(painted, fb_width, rect, (k - 1) as nat);
        assert(prev_rows == data.take(((k - 1) as nat) * rb));
        assert(((k - 1) as nat) * rb == (k - 1) * rb);
        assert(rows_of(painted, fb_width, rect, k) == prev_rows + painted.subrange(from, from + rb));
        assert(data.take((k - 1) * rb) + data.subrange((k - 1) * rb, k * rb) =~= data.take(k * rb));
    }
}

} // verus!

verus! {

/// Whether row `r` has been moved within the first `n` steps of a copy.
pub open spec fn copy_done(src: FrameRect, dst: FrameRect, n: int, r: int) -> bool {
    if copy_reverse(src, dst) {
        copy_height(src, dst) - n <= r < copy_height(src, dst)
    } else {
        0 <= r < n
    }
}

/// Both rectangles of a copy lie within the buffer's width.
pub open spec fn copy_in_width(fb_width: u16, src: FrameRect, dst: FrameRect) -> bool {
    &&& src.x + copy_width(src, dst) <= fb_width
    &&& dst.x + copy_width(src, dst) <= fb_width
}

/// Byte `j` of row `r` of the destination holds byte `j` of row `r` of the
/// source of `fb`.
pub open spec fn moved_byte(res: Seq<u8>, fb: Seq<u8>, fb_width: u16, src: FrameRect, dst: FrameRect, r: int, j: int) -> bool {
    res[pixel_row_offset(fb_width, dst.x, dst.y, r) + j] == fb[pixel_row_offset(fb_width, src.x, src.y, r) + j]
}

/// Whether byte `p` lies in row `r` of the destination.
pub open spec fn in_dst_row(fb_width: u16, src: FrameRect, dst: FrameRect, r: int, p: int) -> bool {
    pixel_row_offset(fb_width, dst.x, dst.y, r) <= p < pixel_row_offset(fb_width, dst.x, dst.y, r)
        + copy_width(src, dst) * 4
}

/// `a` and `b` agree at `base + j`.
pub open spec fn same_byte(a: Seq<u8>, b: Seq<u8>, base: int, j: int) -> bool {
    a[base + j] == b[base + j]
}

proof fn lemma_pixel_offsets_grow(fb_width: u16, x: u16, y: u16, r1: int, r2: int)
    requires
        0 <= r1 <= r2,
    ensures
        pixel_row_offset(fb_width, x, y, r1) <= pixel_row_offset(fb_width, x, y, r2),
        0 <= pixel_row_offset(fb_width, x, y, r1),
{
    let s = fb_width * 4;
    assert((y + r1) * s <= (y + r2) * s) by (nonlinear_arith)
        requires
            y + r1 <= y + r2,
            0 <= s,
    ;
    assert(0 <= (y + r1) * s) by (nonlinear_arith)
        requires
            0 <= y + r1,
            0 <= s,
    ;
}

proof fn lemma_copy_steps(fb: Seq<u8>, fb_width: u16, src: FrameRect, dst: FrameRect, n: nat)
    requires
        copy_in_width(fb_width, src, dst),
        n <= copy_height(src, dst),
    ensures
        copy_steps(fb, fb_width, src, dst, n).len() == fb.len(),
        forall|r: int, j: int|
            copy_done(src, dst, n as int, r) && copy_row_fits(fb.len() as int, fb_width, src, dst, r) && 0 <= j
                < copy_width(src, dst) * 4 ==> #[trigger] moved_byte(
                copy_steps(fb, fb_width, src, dst, n),
                fb,
                fb_width,
                src,
                dst,
                r,
                j,
            ),
        forall|p: int|
            0 <= p < fb.len() && (forall|r: int|
                copy_done(src, dst, n as int, r) && copy_row_fits(fb.len() as int, fb_width, src, dst, r)
                    ==> !#[trigger] in_dst_row(fb_width, src, dst, r, p)) ==> #[trigger] copy_steps(
                fb,
                fb_width,
                src,
                dst,
                n,
            )[p] == fb[p],
    decreases n,
{
    if n > 0 {
        let m = (n - 1) as nat;
        lemma_copy_steps(fb, fb_width, src, dst, m);
        let prev = copy_steps(fb, fb_width, src, dst, m);
        let res = copy_steps(fb, fb_width, src, dst, n);
        let h = copy_height(src, dst);
        let w = copy_width(src, dst);
        let rb = w * 4;
        let s = fb_width * 4;
        let len = fb.len() as int;
        let r = copy_row_at(src, dst, m as int);
        assert(0 <= r < h);
        if copy_row_fits(len, fb_width, src, dst, r) {
            let from = pixel_row_offset(fb_width, src.x, src.y, r);
            let to = pixel_row_offset(fb_width, dst.x, dst.y, r);
            lemma_pixel_offsets_grow(fb_width, src.x, src.y, r, r);
            lemma_pixel_offsets_grow(fb_width, dst.x, dst.y, r, r);
            assert(res == blit(prev, to, prev.subrange(from, from + rb)));
            // The source row is untouched by the rows moved before it.
            assert forall|j: int| 0 <= j < rb implies #[trigger] same_byte(prev, fb, from, j) by {
                assert forall|r2: int|
                    copy_done(src, dst, m as int, r2) && copy_row_fits(len, fb_width, src, dst, r2)
                    implies !#[trigger] in_dst_row(fb_width, src, dst, r2, from + j) by {
                    assert(src.y + r != dst.y + r2);
                    lemma_segments_disjoint(src.y + r, dst.y + r2, s, src.x * 4, dst.x * 4, rb, from + j);
                }
            }
            assert forall|r2: int, j: int|
                copy_done(src, dst, n as int, r2) && copy_row_fits(len, fb_width, src, dst, r2) && 0 <= j < rb
                implies #[trigger] moved_byte(res, fb, fb_width, src, dst, r2, j) by {
                let to2 = pixel_row_offset(fb_width, dst.x, dst.y, r2);
                if r2 == r {
                    assert(same_byte(prev, fb, from, j));
                } else {
                    assert(copy_done(src, dst, m as int, r2));
                    assert(moved_byte(prev, fb, fb_width, src, dst, r2, j));
                    lemma_pixel_offsets_grow(fb_width, dst.x, dst.y, r2, r2);
                    assert(0 <= dst.y + r2);
                    lemma_segments_disjoint(dst.y + r2, dst.y + r, s, dst.x * 4, dst.x * 4, rb, to2 + j);
                }
            }
            assert forall|p: int|
                0 <= p < fb.len() && (forall|r2: int|
                    copy_done(src, dst, n as int, r2) && copy_row_fits(len, fb_width, src, dst, r2)
                        ==> !#[trigger] in_dst_row(fb_width, src, dst, r2, p)) implies #[trigger] res[p] == fb[p] by {
                assert(!in_dst_row(fb_width, src, dst, r, p));
                assert forall|r2: int|
                    copy_done(src, dst, m as int, r2) && copy_row_fits(len, fb_width, src, dst, r2)
                    implies !#[trigger] in_dst_row(fb_width, src, dst, r2, p) by {
                    assert(copy_done(src, dst, n as int, r2));
                }
            }
        } else {
            assert(res == prev);
            assert forall|r2: int, j: int|
                copy_done(src, dst, n as int, r2) && copy_row_fits(len, fb_width, src, dst, r2) && 0 <= j < rb
                implies #[trigger] moved_byte(res, fb, fb_width, src, dst, r2, j) by {
                assert(r2 != r);
                assert(copy_done(src, dst, m as int, r2));
                assert(moved_byte(prev, fb, fb_width, src, dst, r2, j));
            }
            assert forall|p: int|
                0 <= p < fb.len() && (forall|r2: int|
                    copy_done(src, dst, n as int, r2) && copy_row_fits(len, fb_width, src, dst, r2)
                        ==> !#[trigger] in_dst_row(fb_width, src, dst, r2, p)) implies #[trigger] res[p] == fb[p] by {
                assert forall|r2: int|
                    copy_done(src, dst, m as int, r2) && copy_row_fits(len, fb_width, src, dst, r2)
                    implies !#[trigger] in_dst_row(fb_width, src, dst, r2, p) by {
                    assert(copy_done(src, dst, n as int, r2));
                }
            }
        }
    }
}

/// A copy moves the source rectangle's pixels, as they were before the
/// copy, into the destination rectangle, even where the two overlap: every
/// row whose source and destination both lie within the buffer is moved,
/// a row reaching past the end of the buffer is skipped, and every byte
/// outside the moved destination rows stays as it was. This holds when
/// both rectangles lie within the buffer's width.
pub proof fn law_copy_moves_pixels(fb: Seq<u8>, fb_width: u16, src: FrameRect, dst: FrameRect)
    requires
        copy_in_width(fb_width, src, dst),
    ensures
        spec_copy_framebuffer_rect(fb, fb_width, src, dst).len() == fb.len(),
        forall|r: int, j: int|
            0 <= r < copy_height(src, dst) && copy_row_fits(fb.len() as int, fb_width, src, dst, r) && 0 <= j
                < copy_width(src, dst) * 4 ==> #[trigger] moved_byte(
                spec_copy_framebuffer_rect(fb, fb_width, src, dst),
                fb,
                fb_width,
                src,
                dst,
                r,
                j,
            ),
        forall|p: int|
            0 <= p < fb.len() && (forall|r: int|
                0 <= r < copy_height(src, dst) && copy_row_fits(fb.len() as int, fb_width, src, dst, r)
                    ==> !#[trigger] in_dst_row(fb_width, src, dst, r, p)) ==> #[trigger] spec_copy_framebuffer_rect(
                fb,
                fb_width,
                src,
                dst,
            )[p] == fb[p],
{
    let h = copy_height(src, dst);
    lemma_copy_steps(fb, fb_width, src, dst, h as nat);
    assert forall|r: int| 0 <= r < h implies copy_done(src, dst, h, r) by {}
}

} // verus!

verus! {

proof fn lemma_leading_shape(fits: spec_fn(int) -> bool, n: nat)
    ensures
        leading_rows(fits, n) <= n,
        forall|r: int| 0 <= r < leading_rows(fits, n) ==> #[trigger] fits(r),
        leading_rows(fits, n) < n ==> !fits(leading_rows(fits, n) as int),
    decreases n,
{
    if n > 0 {
        lemma_leading_shape(fits, (n - 1) as nat);
    }
}

proof fn lemma_paint_outside(fb: Seq<u8>, fb_width: u16, rect: FrameRect, data: Seq<u8>, n: nat, p: int)
    requires
        0 <= p < fb.len(),
        (n as int) * row_bytes(rect) <= data.len(),
        forall|r: int| 0 <= r < n ==> !(row_offset(fb_width, rect, r) <= p < #[trigger] row_offset(fb_width, rect, r)
            + row_bytes(rect)),
    ensures
        paint_rows(fb, fb_width, rect, data, n)[p] == fb[p],
    decreases n,
{
    if n > 0 {
        let rb = row_bytes(rect);
        assert(((n - 1) as int) * rb + rb == n * rb) by (nonlinear_arith);
        assert(0 <= ((n - 1) as int) * rb) by (nonlinear_arith)
            requires
                1 <= n,
                0 <= rb,
        ;
        lemma_paint_outside(fb, fb_width, rect, data, (n - 1) as nat, p);
        lemma_paint_len(fb, fb_width, rect, data, (n - 1) as nat);
        let r = n - 1;
        assert(!(row_offset(fb_width, rect, r) <= p < row_offset(fb_width, rect, r) + row_bytes(rect)));
    }
}

/// An update writes whole rows of the data from the top: with `k` the
/// number of rows written (it stops at the first row that does not fit
/// the buffer or the data, or after the last), pixel byte `j` of row `r`
/// of the rectangle holds byte `j` of row `r` of the data for every
/// `r < k`, and every byte outside those rows keeps its value. This holds
/// when the rectangle lies within the buffer's width.
pub proof fn law_update_writes_rows(fb: Seq<u8>, fb_width: u16, rect: FrameRect, data: Seq<u8>)
    requires
        rect.x + rect.width <= fb_width,
    ensures
        ({
            let k = update_rows(fb.len() as int, data.len() as int, fb_width, rect, rect.height as nat);
            let res = spec_update_framebuffer(fb, fb_width, rect, data);
            &&& res.len() == fb.len()
            &&& k <= rect.height
            &&& k < rect.height ==> !update_row_fits(fb.len() as int, data.len() as int, fb_width, rect, k as int)
            &&& forall|r: int| 0 <= r < k ==> #[trigger] update_row_fits(fb.len() as int, data.len() as int, fb_width, rect, r)
            &&& forall|r: int, j: int|
                0 <= r < k && 0 <= j < row_bytes(rect) ==> #[trigger] res[row_offset(fb_width, rect, r) + j] == data[r
                    * row_bytes(rect) + j]
            &&& forall|p: int|
                0 <= p < fb.len() && (forall|r: int|
                    0 <= r < k ==> !(row_offset(fb_width, rect, r) <= p < #[trigger] row_offset(fb_width, rect, r)
                        + row_bytes(rect))) ==> #[trigger] res[p] == fb[p]
        }),
{
    let fits = |r: int| update_row_fits(fb.len() as int, data.len() as int, fb_width, rect, r);
    let k = update_rows(fb.len() as int, data.len() as int, fb_width, rect, rect.height as nat);
    lemma_leading_shape(fits, rect.height as nat);
    assert(k == leading_rows(fits, rect.height as nat));
    assert((k as int) * row_bytes(rect) <= data.len()) by {
        let rb = row_bytes(rect);
        if k > 0 {
            assert(fits(k - 1));
            assert(update_row_fits(fb.len() as int, data.len() as int, fb_width, rect, k - 1));
            assert((k - 1) * rb + rb <= data.len());
            assert((k - 1) * rb + rb == k * rb) by (nonlinear_arith);
        } else {
            assert(0 * rb == 0);
        }
    }
    lemma_paint_len(fb, fb_width, rect, data, k);
    assert forall|r: int| 0 <= r < k implies #[trigger] update_row_fits(fb.len() as int, data.len() as int, fb_width, rect, r) by {
        assert(fits(r));
    }
    assert forall|r: int, j: int| 0 <= r < k && 0 <= j < row_bytes(rect) implies #[trigger] spec_update_framebuffer(
        fb,
        fb_width,
        rect,
        data,
    )[row_offset(fb_width, rect, r) + j] == data[r * row_bytes(rect) + j] by {
        assert(fits(k - 1));
        let rb = row_bytes(rect);
        assert((k - 1) * rb + rb == k * rb) by (nonlinear_arith);
        lemma_paint_row(fb, fb_width, rect, data, k, r, j);
    }
    assert forall|p: int|
        0 <= p < fb.len() && (forall|r: int|
            0 <= r < k ==> !(row_offset(fb_width, rect, r) <= p < #[trigger] row_offset(fb_width, rect, r) + row_bytes(
                rect,
            ))) implies #[trigger] spec_update_framebuffer(fb, fb_width, rect, data)[p] == fb[p] by {
        lemma_paint_outside(fb, fb_width, rect, data, k, p);
    }
}

proof fn lemma_rows_of_shape(fb: Seq<u8>, fb_width: u16, rect: FrameRect, n: nat)
    requires
        forall|r: int| 0 <= r < n ==> #[trigger] extract_row_fits(fb.len() as int, fb_width, rect, r),
    ensures
        rows_of(fb, fb_width, rect, n).len() == n * row_bytes(rect),
        forall|r: int, j: int|
            0 <= r < n && 0 <= j < row_bytes(rect) ==> #[trigger] rows_of(fb, fb_width, rect, n)[r * row_bytes(rect)
                + j] == fb[row_offset(fb_width, rect, r) + j],
    decreases n,
{
    if n > 0 {
        let m = (n - 1) as nat;
        lemma_rows_of_shape(fb, fb_width, rect, m);
        let rb = row_bytes(rect);
        let from = row_offset(fb_width, rect, m as int);
        assert(extract_row_fits(fb.len() as int, fb_width, rect, m as int));
        assert(0 <= rect.y + m);
        assert(0 <= (rect.y + m) * (fb_width * 4)) by (nonlinear_arith)
            requires
                0 <= rect.y + m,
                0 <= fb_width * 4,
        ;
        assert(m * rb + rb == n * rb) by (nonlinear_arith)
            requires
                m + 1 == n,
        ;
        assert(0 <= m * rb) by (nonlinear_arith)
            requires
                0 <= rb,
        ;
        let prev = rows_of(fb, fb_width, rect, m);
        let cur = rows_of(fb, fb_width, rect, n);
        assert(cur == prev + fb.subrange(from, from + rb));
        assert forall|r: int, j: int| 0 <= r < n && 0 <= j < rb implies #[trigger] cur[r * rb + j] == fb[row_offset(
            fb_width,
            rect,
            r,
        ) + j] by {
            if r < m {
                assert(r * rb + j < m * rb) by (nonlinear_arith)
                    requires
                        r + 1 <= m,
                        0 <= j < rb,
                ;
                assert(0 <= r * rb) by (nonlinear_arith)
                    requires
                        0 <= r,
                        0 <= rb,
                ;
                assert(cur[r * rb + j] == prev[r * rb + j]);
            } else {
                assert(r == m);
            }
        }
        assert(cur.len() == n * rb);
    } else {
        assert(0 * row_bytes(rect) == 0);
    }
}

/// Extracting a rectangle reads whole rows from the top, up to the first
/// row that does not lie within the buffer (or all of them): with `k`
/// rows read, the result holds `k` rows of `width * 4` bytes, and byte `j`
/// of result row `r` is pixel byte `j` of row `r` of the rectangle. This
/// holds when the rectangle lies within the buffer's width.
pub proof fn law_extract_reads_rows(fb: Seq<u8>, fb_width: u16, rect: FrameRect)
    requires
        rect.x + rect.width <= fb_width,
    ensures
        ({
            let k = extract_rows(fb.len() as int, fb_width, rect);
            let out = spec_extract_rect(fb, fb_width, rect);
            &&& k <= rect.height
            &&& k < rect.height ==> !extract_row_fits(fb.len() as int, fb_width, rect, k as int)
            &&& forall|r: int| 0 <= r < k ==> #[trigger] extract_row_fits(fb.len() as int, fb_width, rect, r)
            &&& out.len() == k * row_bytes(rect)
            &&& out.len() <= rect.width * rect.height * 4
            &&& forall|r: int, j: int|
                0 <= r < k && 0 <= j < row_bytes(rect) ==> #[trigger] out[r * row_bytes(rect) + j] == fb[row_offset(
                    fb_width,
                    rect,
                    r,
                ) + j]
        }),
{
    let fits = |r: int| extract_row_fits(fb.len() as int, fb_width, rect, r);
    let k = extract_rows(fb.len() as int, fb_width, rect);
    lemma_leading_shape(fits, rect.height as nat);
    assert forall|r: int| 0 <= r < k implies #[trigger] extract_row_fits(fb.len() as int, fb_width, rect, r) by {
        assert(fits(r));
    }
    lemma_rows_of_shape(fb, fb_width, rect, k);
    let rb = row_bytes(rect);
    assert(k * rb <= rect.height * rb) by (nonlinear_arith)
        requires
            k <= rect.height,
            0 <= rb,
    ;
    assert(rect.height * rb == rect.width * rect.height * 4) by (nonlinear_arith)
        requires
            rb == rect.width * 4,
    ;
}

} // verus!
