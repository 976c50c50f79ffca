//! Frames read back from the GPU: the padded row layout of the read-back
//! buffer, the copy of its rows into a tight RGBA or BGRA frame, and the
//! answer given to a request for the latest frame.
use vstd::prelude::*;

verus! {

/// Rounds `n` up to a multiple of `align`.
pub open spec fn round_up(n: int, align: int) -> int {
    if n % align == 0 {
        n
    } else {
        (n / align + 1) * align
    }
}

/// Bytes of one padded row of the read-back buffer for a frame `width`
/// pixels wide: its four bytes per pixel rounded up to the row alignment
/// that copies from a texture to a buffer demand.
pub fn padded_row_bytes(width: u32, align: u32) -> (r: u32)
    requires
        align > 0,
        width * 4 <= u32::MAX,
        round_up(width * 4, align as int) <= u32::MAX,
    ensures
        r == round_up(width * 4, align as int),
        r % align == 0,
        width * 4 <= r < width * 4 + align,
{
    let row_bytes = width * 4;
    let q = row_bytes / align;
    let rem = row_bytes % align;
    proof {
        assert(row_bytes == q * align + rem && 0 <= rem < align) by (nonlinear_arith)
            requires
                align > 0,
                q == row_bytes / align,
                rem == row_bytes % align,
        ;
    }
    if rem == 0 {
        proof {
            assert((q * align) % (align as int) == 0) by (nonlinear_arith)
                requires
                    align > 0,
            ;
        }
        row_bytes
    } else {
        proof {
            assert(((q + 1) * align) % (align as int) == 0 && (q + 1) * align == q * align + align)
                by (nonlinear_arith)
                requires
                    align > 0,
            ;
        }
        (q + 1) * align
    }
}

/// Which source byte of a pixel's four goes to byte `c` of the output: the
/// same one for RGBA, red and blue exchanged for BGRA.
pub open spec fn channel_source(c: int, swap_rb: bool) -> int {
    if swap_rb && c == 0 {
        2
    } else if swap_rb && c == 2 {
        0
    } else {
        c
    }
}

/// The four output bytes of pixel `p` of row `y`.
pub open spec fn pixel_bytes(data: Seq<u8>, padded: int, swap_rb: bool, y: int, p: int) -> Seq<u8> {
    let base = y * padded + 4 * p;
    seq![
        data[base + channel_source(0, swap_rb)],
        data[base + channel_source(1, swap_rb)],
        data[base + channel_source(2, swap_rb)],
        data[base + channel_source(3, swap_rb)],
    ]
}

/// The output bytes of the first `n` pixels of row `y`.
pub open spec fn row_bytes_of(data: Seq<u8>, padded: int, swap_rb: bool, y: int, n: int) -> Seq<u8>
    decreases n,
{
    if n <= 0 {
        Seq::empty()
    } else {
        row_bytes_of(data, padded, swap_rb, y, n - 1) + pixel_bytes(data, padded, swap_rb, y, n - 1)
    }
}

/// The tight frame made of the first `n` rows of a padded buffer: each row
/// starts `padded` bytes after the one before, and only its first
/// `4 * width` bytes are pixels.
pub open spec fn frame_bytes(
    data: Seq<u8>,
    width: int,
    padded: int,
    swap_rb: bool,
    n: int,
) -> Seq<u8>
    decreases n,
{
    if n <= 0 {
        Seq::empty()
    } else {
        frame_bytes(data, width, padded, swap_rb, n - 1) + row_bytes_of(
            data,
            padded,
            swap_rb,
            n - 1,
            width,
        )
    }
}

pub proof fn lemma_row_bytes(data: Seq<u8>, padded: int, swap_rb: bool, y: int, n: int)
    requires
        n >= 0,
    ensures
        row_bytes_of(data, padded, swap_rb, y, n).len() == 4 * n,
        forall|p: int, c: int|
            0 <= p < n && 0 <= c < 4 ==> #[trigger] row_bytes_of(data, padded, swap_rb, y, n)[4 * p + c]
                == data[y * padded + 4 * p + channel_source(c, swap_rb)],
    decreases n,
{
    if n > 0 {
        lemma_row_bytes(data, padded, swap_rb, y, n - 1);
        let prev = row_bytes_of(data, padded, swap_rb, y, n - 1);
        let px = pixel_bytes(data, padded, swap_rb, y, n - 1);
        assert forall|p: int, c: int| 0 <= p < n && 0 <= c < 4 implies #[trigger] row_bytes_of(
            data,
            padded,
            swap_rb,
            y,
            n,
        )[4 * p + c] == data[y * padded + 4 * p + channel_source(c, swap_rb)] by {
            if p < n - 1 {
                assert(prev[4 * p + c] == data[y * padded + 4 * p + channel_source(c, swap_rb)]);
            } else {
                assert(px[c] == data[y * padded + 4 * p + channel_source(c, swap_rb)]);
            }
        }
    }
}

/// Byte `c` of pixel `p` of row `y` of the frame comes from that pixel's
/// place in the padded buffer, with red and blue exchanged for BGRA.
pub proof fn lemma_frame_bytes(
    data: Seq<u8>,
    width: int,
    padded: int,
    swap_rb: bool,
    n: int,
)
    requires
        n >= 0,
        width >= 0,
    ensures
        frame_bytes(data, width, padded, swap_rb, n).len() == n * (4 * width),
        forall|y: int, p: int, c: int|
            0 <= y < n && 0 <= p < width && 0 <= c < 4 ==> #[trigger] frame_bytes(
                data,
                width,
                padded,
                swap_rb,
                n,
            )[y * (4 * width) + 4 * p + c] == data[y * padded + 4 * p + channel_source(c, swap_rb)],
    decreases n,
{
    if n == 0 {
        assert(n * (4 * width) == 0) by (nonlinear_arith)
            requires
                n == 0,
        ;
    }
    if n > 0 {
        lemma_frame_bytes(data, width, padded, swap_rb, n - 1);
        lemma_row_bytes(data, padded, swap_rb, n - 1, width);
        let prev = frame_bytes(data, width, padded, swap_rb, n - 1);
        let row = row_bytes_of(data, padded, swap_rb, n - 1, width);
        assert(n * (4 * width) == (n - 1) * (4 * width) + 4 * width) by (nonlinear_arith);
        assert forall|y: int, p: int, c: int| 0 <= y < n && 0 <= p < width && 0 <= c < 4 implies #[trigger] frame_bytes(
            data,
            width,
            padded,
            swap_rb,
            n,
        )[y * (4 * width) + 4 * p + c] == data[y * padded + 4 * p + channel_source(c, swap_rb)] by {
            if y < n - 1 {
                assert(y * (4 * width) + 4 * p + c < (n - 1) * (4 * width)) by (nonlinear_arith)
                    requires
                        0 <= y < n - 1,
                        0 <= p < width,
                        0 <= c < 4,
                ;
                assert(0 <= y * (4 * width)) by (nonlinear_arith)
                    requires
                        0 <= y,
                        0 <= width,
                ;
                assert(prev[y * (4 * width) + 4 * p + c] == data[y * padded + 4 * p + channel_source(
                    c,
                    swap_rb,
                )]);
            } else {
                assert(row[4 * p + c] == data[y * padded + 4 * p + channel_source(c, swap_rb)]);
            }
        }
    }
}

/// A BGRA frame is the RGBA frame of the same buffer with the first and
/// third byte of every pixel exchanged.
pub proof fn law_bgra_swaps_red_and_blue(data: Seq<u8>, width: int, padded: int, height: int)
    requires
        width >= 0,
        height >= 0,
    ensures
        ({
            let rgba = frame_bytes(data, width, padded, false, height);
            let bgra = frame_bytes(data, width, padded, true, height);
            &&& rgba.len() == bgra.len()
            &&& forall|y: int, p: int|
                #![trigger bgra[y * (4 * width) + 4 * p]]
                0 <= y < height && 0 <= p < width ==> {
                    &&& bgra[y * (4 * width) + 4 * p] == rgba[y * (4 * width) + 4 * p + 2]
                    &&& bgra[y * (4 * width) + 4 * p + 1] == rgba[y * (4 * width) + 4 * p + 1]
                    &&& bgra[y * (4 * width) + 4 * p + 2] == rgba[y * (4 * width) + 4 * p]
                    &&& bgra[y * (4 * width) + 4 * p + 3] == rgba[y * (4 * width) + 4 * p + 3]
                }
        }),
{
    lemma_frame_bytes(data, width, padded, false, height);
    lemma_frame_bytes(data, width, padded, true, height);
    let rgba = frame_bytes(data, width, padded, false, height);
    let bgra = frame_bytes(data, width, padded, true, height);
    assert forall|y: int, p: int| 0 <= y < height && 0 <= p < width implies {
        &&& #[trigger] bgra[y * (4 * width) + 4 * p] == rgba[y * (4 * width) + 4 * p + 2]
        &&& bgra[y * (4 * width) + 4 * p + 1] == rgba[y * (4 * width) + 4 * p + 1]
        &&& bgra[y * (4 * width) + 4 * p + 2] == rgba[y * (4 * width) + 4 * p]
        &&& bgra[y * (4 * width) + 4 * p + 3] == rgba[y * (4 * width) + 4 * p + 3]
    } by {
        let i = y * (4 * width) + 4 * p;
        assert(bgra[i + 0] == data[y * padded + 4 * p + channel_source(0, true)]);
        assert(rgba[i + 2] == data[y * padded + 4 * p + channel_source(2, false)]);
        assert(bgra[i + 1] == data[y * padded + 4 * p + channel_source(1, true)]);
        assert(rgba[i + 1] == data[y * padded + 4 * p + channel_source(1, false)]);
        assert(bgra[i + 2] == data[y * padded + 4 * p + channel_source(2, true)]);
        assert(rgba[i + 0] == data[y * padded + 4 * p + channel_source(0, false)]);
        assert(bgra[i + 3] == data[y * padded + 4 * p + channel_source(3, true)]);
        assert(rgba[i + 3] == data[y * padded + 4 * p + channel_source(3, false)]);
    }
}

/// Whether a read-back buffer holds `height` padded rows of `width` pixels.
pub open spec fn holds_rows(len: int, width: int, height: int, padded: int) -> bool {
    height > 0 ==> (height - 1) * padded + 4 * width <= len
}

/// Copies `height` rows of `width` RGBA pixels out of a read-back buffer
/// whose rows are `padded` bytes apart into `out`, which ends up holding
/// exactly `width * height * 4` bytes. With `swap_rb` each pixel comes out
/// as BGRA.
pub fn copy_rows(
    data: &[u8],
    width: usize,
    height: usize,
    padded: usize,
    swap_rb: bool,
    out: &mut Vec<u8>,
)
    requires
        width * 4 * height <= usize::MAX,
        holds_rows(data@.len() as int, width as int, height as int, padded as int),
    ensures
        final(out)@ == frame_bytes(data@, width as int, padded as int, swap_rb, height as int),
        final(out)@.len() == width * 4 * height,
        forall|y: int, p: int, c: int|
            0 <= y < height && 0 <= p < width && 0 <= c < 4 ==> #[trigger] final(out)@[y * (4
                * width) + 4 * p + c] == data@[y * padded + 4 * p + channel_source(c, swap_rb)],
{
    let len = data.len();
    out.clear();
    let mut y: usize = 0;
    while y < height
        invariant
            width * 4 * height <= usize::MAX,
            holds_rows(data@.len() as int, width as int, height as int, padded as int),
            0 <= y <= height,
            len == data@.len(),
            out@ == frame_bytes(data@, width as int, padded as int, swap_rb, y as int),
        decreases height - y,
    {
        proof {
            assert(y * padded <= (height - 1) * padded) by (nonlinear_arith)
                requires
                    y <= height - 1,
            ;
        }
        let base = y * padded;
        let ghost start = out@;
        let mut p: usize = 0;
        while p < width
            invariant
                0 <= y < height,
                base == y * padded,
                base + 4 * width <= data@.len(),
                len == data@.len(),
                0 <= p <= width,
                out@ == start + row_bytes_of(data@, padded as int, swap_rb, y as int, p as int),
            decreases width - p,
        {
            let s = base + 4 * p;
            if swap_rb {
                out.push(data[s + 2]);
                out.push(data[s + 1]);
                out.push(data[s]);
                out.push(data[s + 3]);
            } else {
                out.push(data[s]);
                out.push(data[s + 1]);
                out.push(data[s + 2]);
                out.push(data[s + 3]);
            }
            assert(out@ =~= start + row_bytes_of(data@, padded as int, swap_rb, y as int, p + 1));
            p = p + 1;
        }
        assert(out@ =~= frame_bytes(data@, width as int, padded as int, swap_rb, y + 1));
        y = y + 1;
    }
    proof {
        lemma_frame_bytes(data@, width as int, padded as int, swap_rb, height as int);
        assert(height * (4 * width) == width * 4 * height) by (nonlinear_arith);
    }
}

/// The answer to a request for the latest frame: -1 when the request
/// cannot be served (a missing destination or state that cannot be read),
/// -3 when no frame has been rendered yet, -2 when the destination holds
/// fewer than `frame_len` bytes, and 0 when the frame can be copied.
pub fn frame_copy_code(request_ok: bool, frame_len: usize, capacity: usize) -> (r: i32)
    ensures
        r == if !request_ok {
            -1i32
        } else if frame_len == 0 {
            -3i32
        } else if capacity < frame_len {
            -2i32
        } else {
            0i32
        },
{
    if !request_ok {
        return -1;
    }
    if frame_len == 0 {
        return -3;
    }
    if capacity < frame_len {
        return -2;
    }
    0
}


/// The size a frame is rendered at for a requested size: at least one
/// pixel each way.
pub fn render_size(width: u32, height: u32) -> (r: (u32, u32))
    ensures
        r.0 == if width < 1 {
            1
        } else {
            width
        },
        r.1 == if height < 1 {
            1
        } else {
            height
        },
{
    let w = if width < 1 {
        1
    } else {
        width
    };
    let h = if height < 1 {
        1
    } else {
        height
    };
    (w, h)
}

/// The new size of the render targets for a resize request, or `None`
/// when the targets already have the size the request comes to.
pub fn resized(current: (u32, u32), width: u32, height: u32) -> (r: Option<(u32, u32)>)
    ensures
        ({
            let w = if width < 1 {
                1u32
            } else {
                width
            };
            let h = if height < 1 {
                1u32
            } else {
                height
            };
            r == if w == current.0 && h == current.1 {
                None
            } else {
                Some((w, h))
            }
        }),
{
    let size = render_size(width, height);
    if size.0 == current.0 && size.1 == current.1 {
        None
    } else {
        Some(size)
    }
}


/// An RGBA frame keeps every pixel byte of the buffer as it is, dropping
/// only the padding at the end of each row; a BGRA frame takes the third
/// byte of each pixel first, the second second, the first third and the
/// fourth last.
pub proof fn law_frames_take_the_buffer_pixels(
    data: Seq<u8>,
    width: int,
    padded: int,
    height: int,
    y: int,
    p: int,
)
    requires
        width >= 0,
        0 <= y < height,
        0 <= p < width,
    ensures
        ({
            let rgba = frame_bytes(data, width, padded, false, height);
            let bgra = frame_bytes(data, width, padded, true, height);
            let i = y * (4 * width) + 4 * p;
            let s = y * padded + 4 * p;
            &&& rgba[i] == data[s]
            &&& rgba[i + 1] == data[s + 1]
            &&& rgba[i + 2] == data[s + 2]
            &&& rgba[i + 3] == data[s + 3]
            &&& bgra[i] == data[s + 2]
            &&& bgra[i + 1] == data[s + 1]
            &&& bgra[i + 2] == data[s]
            &&& bgra[i + 3] == data[s + 3]
        }),
{
    lemma_frame_bytes(data, width, padded, false, height);
    lemma_frame_bytes(data, width, padded, true, height);
    let rgba = frame_bytes(data, width, padded, false, height);
    let bgra = frame_bytes(data, width, padded, true, height);
    assert(rgba[y * (4 * width) + 4 * p + 0] == data[y * padded + 4 * p + channel_source(0, false)]);
    assert(rgba[y * (4 * width) + 4 * p + 1] == data[y * padded + 4 * p + channel_source(1, false)]);
    assert(rgba[y * (4 * width) + 4 * p + 2] == data[y * padded + 4 * p + channel_source(2, false)]);
    assert(rgba[y * (4 * width) + 4 * p + 3] == data[y * padded + 4 * p + channel_source(3, false)]);
    assert(bgra[y * (4 * width) + 4 * p + 0] == data[y * padded + 4 * p + channel_source(0, true)]);
    assert(bgra[y * (4 * width) + 4 * p + 1] == data[y * padded + 4 * p + channel_source(1, true)]);
    assert(bgra[y * (4 * width) + 4 * p + 2] == data[y * padded + 4 * p + channel_source(2, true)]);
    assert(bgra[y * (4 * width) + 4 * p + 3] == data[y * padded + 4 * p + channel_source(3, true)]);
}

} // verus!
