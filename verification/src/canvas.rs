use image::{imageops, ImageError, ImageFormat};
use vstd::prelude::*;

verus! {

/// Width of the canvas in pixels.
pub const WIDTH: u32 = 256;

/// Height of the canvas in pixels.
pub const HEIGHT: u32 = 256;

/// Number of pixels of a canvas, `WIDTH * HEIGHT`.
pub const CANVAS_LEN: usize = 65536;

/// A 1-bit image in row-major order: `true` is a black (inked) pixel.
pub type Canvas = Vec<bool>;

/// Index of pixel `(x, y)` in a row-major canvas.
pub open spec fn pixel_index(x: int, y: int) -> int {
    y * (WIDTH as int) + x
}

/// Whether `(x, y)` lies on the canvas.
pub open spec fn on_canvas(x: int, y: int) -> bool {
    0 <= x < WIDTH as int && 0 <= y < HEIGHT as int
}

/// Whether the filled disk of radius `r` centred on `(cx, cy)` covers `(x, y)`:
/// the offset lies in the square `[-r, r]²` and inside the circle.
pub open spec fn disk_covers(cx: int, cy: int, r: int, x: int, y: int) -> bool {
    let dx = x - cx;
    let dy = y - cy;
    &&& -r <= dx <= r
    &&& -r <= dy <= r
    &&& dx * dx + dy * dy <= r * r
}

/// What a canvas holds at `(x, y)` after a disk was filled on `before`.
pub open spec fn filled_pixel(before: Seq<bool>, cx: int, cy: int, r: int, black: bool, x: int, y: int) -> bool {
    if disk_covers(cx, cy, r, x, y) {
        black
    } else {
        before[pixel_index(x, y)]
    }
}

/// Every index of a canvas is the index of exactly one pixel on it.
pub proof fn lemma_index_is_pixel(i: int)
    requires
        0 <= i < CANVAS_LEN,
    ensures
        on_canvas(i % (WIDTH as int), i / (WIDTH as int)),
        pixel_index(i % (WIDTH as int), i / (WIDTH as int)) == i,
{
    vstd::arithmetic::div_mod::lemma_fundamental_div_mod(i, WIDTH as int);
}

/// Two pixels on the canvas share an index only if they are the same pixel.
pub proof fn lemma_pixel_index_injective(x1: int, y1: int, x2: int, y2: int)
    requires
        on_canvas(x1, y1),
        on_canvas(x2, y2),
        pixel_index(x1, y1) == pixel_index(x2, y2),
    ensures
        x1 == x2,
        y1 == y2,
{
}

/// An offset inside the circle of radius `r` lies in the square `[-r, r]²`.
pub proof fn lemma_circle_in_square(dx: int, dy: int, r: int)
    requires
        r >= 0,
        dx * dx + dy * dy <= r * r,
    ensures
        -r <= dx <= r,
        -r <= dy <= r,
{
    assert(dy * dy >= 0) by (nonlinear_arith);
    assert(dx * dx >= 0) by (nonlinear_arith);
    assert(-r <= dx <= r) by (nonlinear_arith)
        requires
            r >= 0,
            dx * dx <= r * r,
    ;
    assert(-r <= dy <= r) by (nonlinear_arith)
        requires
            r >= 0,
            dy * dy <= r * r,
    ;
}

/// For a radius of 0 or more, the disk covers exactly the pixels within
/// Euclidean distance `r` of the centre: `(x - cx)² + (y - cy)² <= r²`.
pub proof fn lemma_disk_is_euclidean(cx: int, cy: int, r: int, x: int, y: int)
    requires
        r >= 0,
    ensures
        disk_covers(cx, cy, r, x, y) <==> (x - cx) * (x - cx) + (y - cy) * (y - cy) <= r * r,
{
    if (x - cx) * (x - cx) + (y - cy) * (y - cy) <= r * r {
        lemma_circle_in_square(x - cx, y - cy, r);
    }
}

/// A canvas filled with a disk: painted inside the Euclidean circle (for a
/// radius of 0 or more), unchanged outside it, unchanged for a negative radius.
proof fn lemma_filled_is_euclidean(before: Seq<bool>, after: Seq<bool>, cx: int, cy: int, r: int, black: bool)
    requires
        forall|x: int, y: int|
            on_canvas(x, y) ==> #[trigger] after[pixel_index(x, y)] == filled_pixel(
                before,
                cx,
                cy,
                r,
                black,
                x,
                y,
            ),
    ensures
        r >= 0 ==> forall|x: int, y: int|
            on_canvas(x, y) && (x - cx) * (x - cx) + (y - cy) * (y - cy) <= r * r
                ==> #[trigger] after[pixel_index(x, y)] == black,
        forall|x: int, y: int|
            on_canvas(x, y) && (x - cx) * (x - cx) + (y - cy) * (y - cy) > r * r
                ==> #[trigger] after[pixel_index(x, y)] == before[pixel_index(x, y)],
{
    if r >= 0 {
        assert forall|x: int, y: int|
            on_canvas(x, y) && (x - cx) * (x - cx) + (y - cy) * (y - cy) <= r * r implies #[trigger] after[pixel_index(x, y)] == black by {
            lemma_disk_is_euclidean(cx, cy, r, x, y);
        }
    }
}

/// A blank canvas: `CANVAS_LEN` white pixels.
pub fn new_canvas() -> (canvas: Canvas)
    ensures
        canvas.len() == CANVAS_LEN,
        forall|i: int| 0 <= i < CANVAS_LEN ==> !#[trigger] canvas@[i],
{
    let mut canvas: Canvas = Vec::new();
    let mut i: usize = 0;
    while i < CANVAS_LEN
        invariant
            i <= CANVAS_LEN,
            canvas.len() == i,
            forall|j: int| 0 <= j < i ==> !#[trigger] canvas@[j],
        decreases CANVAS_LEN - i,
    {
        canvas.push(false);
        i = i + 1;
    }
    canvas
}

/// Paints the disk of radius `r` centred on `(cx, cy)` with `black`, clipped to
/// the canvas. A negative radius paints nothing.
pub fn fill_disk(canvas: &mut Canvas, cx: i32, cy: i32, r: i32, black: bool)
    requires
        old(canvas).len() >= CANVAS_LEN,
        i32::MIN < r < 32768,
        r >= 0 ==> i32::MIN <= cx - r && cx + r <= i32::MAX,
        r >= 0 ==> i32::MIN <= cy - r && cy + r <= i32::MAX,
    ensures
        final(canvas).len() == old(canvas).len(),
        forall|i: int|
            CANVAS_LEN <= i < old(canvas).len() ==> #[trigger] final(canvas)@[i] == old(canvas)@[i],
        forall|x: int, y: int|
            on_canvas(x, y) ==> #[trigger] final(canvas)@[pixel_index(x, y)] == filled_pixel(
                old(canvas)@,
                cx as int,
                cy as int,
                r as int,
                black,
                x,
                y,
            ),
        r >= 0 ==> forall|x: int, y: int|
            on_canvas(x, y) && (x - cx) * (x - cx) + (y - cy) * (y - cy) <= r * r
                ==> #[trigger] final(canvas)@[pixel_index(x, y)] == black,
        forall|x: int, y: int|
            on_canvas(x, y) && (x - cx) * (x - cx) + (y - cy) * (y - cy) > r * r
                ==> #[trigger] final(canvas)@[pixel_index(x, y)] == old(canvas)@[pixel_index(x, y)],
        r < 0 ==> final(canvas)@ == old(canvas)@,
{
    if r < 0 {
        proof {
            lemma_filled_is_euclidean(canvas@, canvas@, cx as int, cy as int, r as int, black);
        }
        return;
    }
    let ghost before = canvas@;
    let mut dy: i32 = -r;
    while dy <= r
        invariant
            before == old(canvas)@,
            canvas.len() == before.len(),
            before.len() >= CANVAS_LEN,
            forall|i: int| CANVAS_LEN <= i < before.len() ==> #[trigger] canvas@[i] == before[i],
            0 <= r < 32768,
            i32::MIN <= cx - r && cx + r <= i32::MAX,
            i32::MIN <= cy - r && cy + r <= i32::MAX,
            -r <= dy <= r + 1,
            forall|x: int, y: int|
                on_canvas(x, y) ==> #[trigger] canvas@[pixel_index(x, y)] == if disk_covers(
                    cx as int,
                    cy as int,
                    r as int,
                    x,
                    y,
                ) && y - cy < dy {
                    black
                } else {
                    before[pixel_index(x, y)]
                },
        decreases r + 1 - dy,
    {
        let mut dx: i32 = -r;
        while dx <= r
            invariant
                before == old(canvas)@,
                canvas.len() == before.len(),
            before.len() >= CANVAS_LEN,
            forall|i: int| CANVAS_LEN <= i < before.len() ==> #[trigger] canvas@[i] == before[i],
                0 <= r < 32768,
                i32::MIN <= cx - r && cx + r <= i32::MAX,
                i32::MIN <= cy - r && cy + r <= i32::MAX,
                -r <= dy <= r,
                -r <= dx <= r + 1,
                forall|x: int, y: int|
                    on_canvas(x, y) ==> #[trigger] canvas@[pixel_index(x, y)] == if disk_covers(
                        cx as int,
                        cy as int,
                        r as int,
                        x,
                        y,
                    ) && (y - cy < dy || (y - cy == dy && x - cx < dx)) {
                        black
                    } else {
                        before[pixel_index(x, y)]
                    },
            decreases r + 1 - dx,
        {
            assert(0 <= dx * dx <= 32767 * 32767) by (nonlinear_arith)
                requires
                    -32767 <= dx <= 32767,
            ;
            assert(0 <= dy * dy <= 32767 * 32767) by (nonlinear_arith)
                requires
                    -32767 <= dy <= 32767,
            ;
            assert(0 <= r * r <= 32767 * 32767) by (nonlinear_arith)
                requires
                    0 <= r <= 32767,
            ;
            if dx * dx + dy * dy <= r * r {
                let x = cx + dx;
                let y = cy + dy;
                if x >= 0 && x < 256 && y >= 0 && y < 256 {
                    let idx: usize = (y as usize) * 256 + (x as usize);
                    let ghost prev = canvas@;
                    canvas.set(idx, black);
                    assert forall|px: int, py: int| on_canvas(px, py) implies #[trigger] canvas@[pixel_index(px, py)] == if disk_covers(
                        cx as int,
                        cy as int,
                        r as int,
                        px,
                        py,
                    ) && (py - cy < dy || (py - cy == dy && px - cx < dx + 1)) {
                        black
                    } else {
                        before[pixel_index(px, py)]
                    } by {
                        if px == x && py == y {
                            assert(pixel_index(px, py) == idx);
                        } else {
                            if pixel_index(px, py) == idx as int {
                                lemma_pixel_index_injective(px, py, x as int, y as int);
                            }
                            assert(canvas@[pixel_index(px, py)] == prev[pixel_index(px, py)]);
                        }
                    }
                }
            }
            dx = dx + 1;
        }
        dy = dy + 1;
    }
    proof {
        lemma_filled_is_euclidean(before, canvas@, cx as int, cy as int, r as int, black);
    }
}

/// A pixel is black when its luma is below the middle grey level 128.
pub open spec fn binarized(luma: Seq<u8>) -> Seq<bool> {
    Seq::new(luma.len(), |i: int| luma[i] < 128)
}

/// The grey-level image of a canvas: black pixels are 0, white ones 255.
pub open spec fn luma_image(canvas: Seq<bool>) -> Seq<u8> {
    Seq::new(
        CANVAS_LEN as nat,
        |i: int|
            if canvas[i] {
                0u8
            } else {
                255u8
            },
    )
}

/// Binarizes a grey-level image, pixel by pixel: black where the luma is
/// below 128.
pub fn binarize(luma: &Vec<u8>) -> (canvas: Canvas)
    ensures
        canvas@ == binarized(luma@),
        canvas.len() == luma.len(),
        forall|i: int| 0 <= i < luma.len() ==> #[trigger] canvas@[i] == (luma@[i] < 128),
{
    let mut canvas: Canvas = Vec::new();
    let mut i: usize = 0;
    while i < luma.len()
        invariant
            i <= luma.len(),
            canvas@ == binarized(luma@).subrange(0, i as int),
        decreases luma.len() - i,
    {
        canvas.push(luma[i] < 128);
        i = i + 1;
    }
    canvas
}

/// The grey levels written when a canvas is saved: 0 for black, 255 for
/// white, for its first `CANVAS_LEN` pixels in row-major order.
pub fn canvas_to_luma(canvas: &Canvas) -> (luma: Vec<u8>)
    requires
        canvas.len() >= CANVAS_LEN,
    ensures
        luma@ == luma_image(canvas@),
        luma.len() == CANVAS_LEN,
        forall|i: int| 0 <= i < CANVAS_LEN ==> (#[trigger] luma@[i] == 0 <==> canvas@[i]),
        forall|i: int| 0 <= i < CANVAS_LEN ==> (luma@[i] == 255 <==> !#[trigger] canvas@[i]),
{
    let mut luma: Vec<u8> = Vec::new();
    let mut i: usize = 0;
    while i < CANVAS_LEN
        invariant
            i <= CANVAS_LEN,
            canvas.len() >= CANVAS_LEN,
            luma@ == luma_image(canvas@).subrange(0, i as int),
        decreases CANVAS_LEN - i,
    {
        let v: u8 = if canvas[i] {
            0
        } else {
            255
        };
        luma.push(v);
        i = i + 1;
    }
    luma
}

/// The error that `image` reports for input it cannot decode.
#[verifier::external_type_specification]
#[verifier::external_body]
pub struct ExImageError(ImageError);

/// Why a target image could not be loaded.
#[derive(Debug)]
pub enum LoadError {
    /// The bytes are not an image that `image` can decode.
    Undecodable(ImageError),
}

/// The grey levels of an encoded image once decoded, resized to
/// `width × height` pixels with a Lanczos filter, and converted to luma, row
/// by row; `None` where the bytes cannot be decoded. The format is recognised
/// from the bytes' signature, or else taken from the path's extension.
pub uninterp spec fn decoded_luma(bytes: Seq<u8>, path: Seq<char>, width: u32, height: u32) -> Option<Seq<u8>>;

/// Decodes an encoded image with `image`'s built-in decoders only: the format
/// comes from `image::guess_format` (the built-in signatures) or, failing
/// that, from `ImageFormat::from_path`, and `image::load_from_memory_with_format`
/// decodes it; then `DynamicImage::resize_exact(width, height, Lanczos3)` and
/// `to_luma8`. The result is named `decoded_luma`; `resize_exact` makes an
/// image of exactly `width × height` pixels, of one luma byte each. The bound
/// on the size keeps every pixel buffer within what a `Vec` can hold.
#[verifier::external_body]
fn decode_lanczos_luma(bytes: &Vec<u8>, path: &str, width: u32, height: u32) -> (r: Result<Vec<u8>, ImageError>)
    requires
        width as int * height as int * 16 <= isize::MAX,
    ensures
        r is Ok <==> decoded_luma(bytes@, path@, width, height) is Some,
        r matches Ok(luma) ==> Some(luma@) == decoded_luma(bytes@, path@, width, height),
        r matches Ok(luma) ==> luma@.len() == width as int * height as int,
{
    let format = match image::guess_format(bytes) {
        Ok(format) => format,
        Err(_) => ImageFormat::from_path(path)?,
    };
    let img = image::load_from_memory_with_format(bytes, format)?;
    Ok(img.resize_exact(width, height, imageops::FilterType::Lanczos3).to_luma8().into_raw())
}

/// The target canvas of an encoded image read from `path`: decoded, resized
/// to the canvas, and binarized (black where the luma is below 128).
pub fn load_canvas(bytes: &Vec<u8>, path: &str) -> (r: Result<Canvas, LoadError>)
    ensures
        r is Ok <==> decoded_luma(bytes@, path@, WIDTH, HEIGHT) is Some,
        r matches Ok(canvas) ==> canvas@ == binarized(
            decoded_luma(bytes@, path@, WIDTH, HEIGHT).unwrap(),
        ),
        r matches Ok(canvas) ==> canvas.len() == CANVAS_LEN,
{
    match decode_lanczos_luma(bytes, path, WIDTH, HEIGHT) {
        Ok(luma) => Ok(binarize(&luma)),
        Err(e) => Err(LoadError::Undecodable(e)),
    }
}

/// Saving a canvas as grey levels and binarizing them again gives the canvas
/// back.
pub proof fn lemma_luma_round_trip(canvas: Seq<bool>)
    requires
        canvas.len() == CANVAS_LEN,
    ensures
        binarized(luma_image(canvas)) == canvas,
{
    assert(binarized(luma_image(canvas)) =~= canvas);
}

/// Filling the same disk twice leaves the canvas as filling it once.
pub proof fn lemma_fill_idempotent(
    before: Seq<bool>,
    once: Seq<bool>,
    twice: Seq<bool>,
    cx: int,
    cy: int,
    r: int,
    black: bool,
)
    requires
        forall|x: int, y: int|
            on_canvas(x, y) ==> #[trigger] once[pixel_index(x, y)] == filled_pixel(
                before,
                cx,
                cy,
                r,
                black,
                x,
                y,
            ),
        forall|x: int, y: int|
            on_canvas(x, y) ==> #[trigger] twice[pixel_index(x, y)] == filled_pixel(
                once,
                cx,
                cy,
                r,
                black,
                x,
                y,
            ),
    ensures
        forall|x: int, y: int|
            on_canvas(x, y) ==> #[trigger] twice[pixel_index(x, y)] == once[pixel_index(x, y)],
{
}

} // verus!
