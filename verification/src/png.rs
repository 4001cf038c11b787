//! The raster encoding of a state: one pixel per cell, white for a live
//! cell and black for a dead one, stored as a PNG image.

use vstd::prelude::*;

use crate::error::CrudError;
use crate::render::{Render, RenderView};
use crate::state::{is_board, rows_view, State};
use crate::text::{decimal, push_decimal};

verus! {

/// The pixels of an image, row by row from the top, each row from the left,
/// every pixel as a run of channel bytes.
#[derive(Debug)]
pub struct Raster {
    /// Number of pixels in a row.
    pub width: u32,
    /// Number of rows.
    pub height: u32,
    /// The channel bytes of all pixels.
    pub pixels: Vec<u8>,
}

impl Raster {
    /// An image that is not empty and holds exactly `channels` bytes for
    /// each of its pixels.
    pub open spec fn has_channels(&self, channels: nat) -> bool {
        pixels_fill(self.width, self.height, self.pixels@, channels)
    }
}

/// Pixels that fill an image that is not empty: exactly `channels` bytes for
/// each pixel.
pub open spec fn pixels_fill(width: u32, height: u32, pixels: Seq<u8>, channels: nat) -> bool {
    &&& width > 0
    &&& height > 0
    &&& pixels.len() == channels * width * height
}

/// What a raster holds, as plain values.
pub open spec fn raster_view(raster: Raster) -> (u32, u32, Seq<u8>) {
    (raster.width, raster.height, raster.pixels@)
}

/// What an optional raster holds.
pub open spec fn optional_raster_view(raster: Option<Raster>) -> Option<(u32, u32, Seq<u8>)> {
    match raster {
        Some(r) => Some(raster_view(r)),
        None => None,
    }
}

/// What optional bytes hold.
pub open spec fn optional_bytes_view(bytes: Option<Vec<u8>>) -> Option<Seq<u8>> {
    match bytes {
        Some(b) => Some(b@),
        None => None,
    }
}

/// The image that the `image` crate reads from PNG bytes, as width, height
/// and four bytes (red, green, blue, alpha) per pixel; `None` where it
/// reads none.
pub uninterp spec fn png_decoding(bytes: Seq<u8>) -> Option<(u32, u32, Seq<u8>)>;

/// The pixels to which the `image` crate resamples an image of four bytes
/// per pixel with its nearest-neighbour filter; `None` where the pixels
/// given are too few for the size given.
pub uninterp spec fn nearest_resizing(
    width: u32,
    height: u32,
    pixels: Seq<u8>,
    new_width: u32,
    new_height: u32,
) -> Option<Seq<u8>>;

/// The PNG bytes into which the `image` crate encodes an image of three
/// bytes (red, green, blue) per pixel; `None` where it encodes none.
pub uninterp spec fn png_encoding(width: u32, height: u32, pixels: Seq<u8>) -> Option<Seq<u8>>;

/// The text into which the `base64` crate encodes bytes with its URL-safe
/// alphabet and without padding.
pub uninterp spec fn base64_url(data: Seq<u8>) -> Seq<char>;

/// `image::load_from_memory_with_format` with the PNG format, followed by
/// `DynamicImage::into_rgba8` to have the pixels as plain bytes. A decoding
/// error becomes `None`. The contract only names the outcome.
#[verifier::external_body]
fn decode_rgba8(bytes: &[u8]) -> (decoded: Option<Raster>)
    ensures
        optional_raster_view(decoded) == png_decoding(bytes@),
{
    let image = image::load_from_memory_with_format(bytes, image::ImageFormat::Png).ok()?;
    let rgba = image.into_rgba8();
    Some(Raster { width: rgba.width(), height: rgba.height(), pixels: rgba.into_raw() })
}

/// `image::imageops::resize` with `FilterType::Nearest`, on an image built
/// from the given pixels with `ImageBuffer::from_raw`. The sizes demanded
/// keep the buffers that `resize` allocates within `usize`, and the source
/// not empty. The contract only names the outcome.
#[verifier::external_body]
fn resize_nearest(source: &Raster, width: u32, height: u32) -> (pixels: Option<Vec<u8>>)
    requires
        source.has_channels(4),
        width > 0,
        height > 0,
        4 * source.width * height <= usize::MAX,
        4 * width * height <= usize::MAX,
    ensures
        optional_bytes_view(pixels) == nearest_resizing(
            source.width,
            source.height,
            source.pixels@,
            width,
            height,
        ),
{
    let image = image::RgbaImage::from_raw(source.width, source.height, source.pixels.clone())?;
    Some(image::imageops::resize(&image, width, height, image::imageops::FilterType::Nearest).into_raw())
}

/// `image::codecs::png::PngEncoder::encode` with `ColorType::Rgb8`, into a
/// vector. An encoding error becomes `None`. The image is not empty and its
/// bytes are as many as its size asks for. The contract only names the
/// outcome.
#[verifier::external_body]
#[allow(deprecated)]
fn encode_png(raster: &Raster) -> (bytes: Option<Vec<u8>>)
    requires
        raster.has_channels(3),
    ensures
        optional_bytes_view(bytes) == png_encoding(raster.width, raster.height, raster.pixels@),
{
    let mut bytes = Vec::new();
    image::codecs::png::PngEncoder::new(&mut bytes).encode(
        &raster.pixels,
        raster.width,
        raster.height,
        image::ColorType::Rgb8,
    ).ok()?;
    Some(bytes)
}

/// `base64::Engine::encode` of `URL_SAFE_NO_PAD`. The input is short enough
/// for the length of the text to fit in `usize`, which is what the call
/// needs not to panic. The contract only names the outcome.
#[verifier::external_body]
fn encode_base64(data: &[u8]) -> (text: String)
    requires
        (data@.len() / 3) * 4 + 3 <= usize::MAX,
    ensures
        text@ == base64_url(data@),
{
    base64::Engine::encode(&base64::engine::general_purpose::URL_SAFE_NO_PAD, data)
}

/// The three bytes of the pixel that stands for a cell.
pub open spec fn cell_pixel(cell: u8) -> Seq<u8> {
    if cell == 1 {
        seq![255u8, 255u8, 255u8]
    } else {
        seq![0u8, 0u8, 0u8]
    }
}

/// The pixels of a row of cells.
pub open spec fn row_pixels(row: Seq<u8>) -> Seq<u8>
    decreases row.len(),
{
    if row.len() == 0 {
        Seq::empty()
    } else {
        row_pixels(row.drop_last()) + cell_pixel(row.last())
    }
}

/// The pixels of a board: its rows from the top, three bytes per cell.
pub open spec fn board_pixels(cells: Seq<Seq<u8>>) -> Seq<u8>
    decreases cells.len(),
{
    if cells.len() == 0 {
        Seq::empty()
    } else {
        board_pixels(cells.drop_last()) + row_pixels(cells.last())
    }
}

/// The cell that a pixel stands for: alive when the mean of red, green and
/// blue, rounded down, is at least 128.
pub open spec fn pixel_cell(red: u8, green: u8, blue: u8) -> u8 {
    if (red + green + blue) / 3 >= 128 {
        1
    } else {
        0
    }
}

/// The board of the given size held by pixels of four bytes each.
pub open spec fn pixels_board(pixels: Seq<u8>, width: nat, height: nat) -> Seq<Seq<u8>> {
    Seq::new(
        height,
        |y: int|
            Seq::new(
                width,
                |x: int|
                    pixel_cell(
                        pixels[4 * (y * width + x)],
                        pixels[4 * (y * width + x) + 1],
                        pixels[4 * (y * width + x) + 2],
                    ),
            ),
    )
}

/// Whether an image of `channels` bytes per pixel and the given size can be
/// held: each side fits in 32 bits and all its bytes are counted by `usize`.
pub open spec fn image_fits(width: nat, height: nat, channels: nat) -> bool {
    &&& width <= u32::MAX
    &&& height <= u32::MAX
    &&& channels * width * height <= usize::MAX
}

/// Tells whether an image of the given size can be held.
pub fn check_image_fits(width: usize, height: usize, channels: u8) -> (fits: bool)
    ensures
        fits == image_fits(width as nat, height as nat, channels as nat),
{
    if width > u32::MAX as usize || height > u32::MAX as usize {
        return false;
    }
    assert(width * height <= 0xffff_ffff * 0xffff_ffff) by (nonlinear_arith)
        requires
            width <= 0xffff_ffff,
            height <= 0xffff_ffff,
    ;
    let area: u128 = (width as u128) * (height as u128);
    assert(channels * area <= 255 * (0xffff_ffff * 0xffff_ffff)) by (nonlinear_arith)
        requires
            0 <= area <= 0xffff_ffff * 0xffff_ffff,
            channels <= 255,
    ;
    let total: u128 = (channels as u128) * area;
    assert(channels * width * height == channels * (width * height)) by (nonlinear_arith);
    total <= usize::MAX as u128
}

/// The pixels of a row are three bytes for each of its cells.
pub proof fn lemma_row_pixels_len(row: Seq<u8>)
    ensures
        row_pixels(row).len() == 3 * row.len(),
    decreases row.len(),
{
    if row.len() > 0 {
        lemma_row_pixels_len(row.drop_last());
    }
}

/// The pixels of a board are three bytes for each of its cells.
pub proof fn lemma_board_pixels_len(cells: Seq<Seq<u8>>)
    requires
        forall|i: int| 0 <= i < cells.len() ==> (#[trigger] cells[i]).len() == cells[0].len(),
    ensures
        board_pixels(cells).len() == 3 * cells[0].len() * cells.len(),
    decreases cells.len(),
{
    let w = cells[0].len() as int;
    let h = cells.len() as int;
    if cells.len() > 0 {
        let shorter = cells.drop_last();
        lemma_row_pixels_len(cells.last());
        if shorter.len() > 0 {
            assert(shorter[0] == cells[0]);
            assert forall|i: int| 0 <= i < shorter.len() implies (#[trigger] shorter[i]).len()
                == shorter[0].len() by {
                assert(shorter[i] == cells[i]);
            }
            lemma_board_pixels_len(shorter);
            assert(board_pixels(shorter).len() == 3 * w * (h - 1));
        } else {
            assert(board_pixels(shorter).len() == 0);
            assert(3 * w * (h - 1) == 0) by (nonlinear_arith)
                requires
                    h == 1,
            ;
        }
        assert(3 * w * (h - 1) + 3 * w == 3 * w * h) by (nonlinear_arith);
    } else {
        assert(3 * w * h == 0) by (nonlinear_arith)
            requires
                h == 0,
        ;
    }
}

/// The reader of states stored as PNG images.
#[derive(Debug, Clone, Copy)]
pub struct PngReader {}

/// The writer of states as PNG images, and the renderer of states as
/// rasters.
#[derive(Debug, Clone, Copy)]
pub struct PngWriter {}

/// What reading PNG bytes as a state of the given size comes to. The image
/// is decoded, resampled to the size of the board with the nearest
/// neighbour, and every pixel becomes a cell.
pub open spec fn png_state(bytes: Seq<u8>, width: nat, height: nat) -> Result<
    Seq<Seq<u8>>,
    CrudError,
> {
    match png_decoding(bytes) {
        None => Err(CrudError::UnsupportedImage),
        Some((w, h, pixels)) => {
            if !(w > 0 && h > 0 && pixels.len() == 4 * w * h) {
                Err(CrudError::UnsupportedImage)
            } else if !(image_fits(width, height, 4) && 4 * w * height <= usize::MAX) {
                Err(CrudError::ImageTooLarge)
            } else {
                match nearest_resizing(w, h, pixels, width as u32, height as u32) {
                    None => Err(CrudError::UnsupportedImage),
                    Some(resized) => if resized.len() != 4 * width * height {
                        Err(CrudError::UnsupportedImage)
                    } else {
                        Ok(pixels_board(resized, width, height))
                    },
                }
            }
        },
    }
}

/// The board held by pixels of four bytes each, for a buffer known to have
/// the right length.
pub fn cells_from_pixels(pixels: &Vec<u8>, width: usize, height: usize) -> (state: State)
    requires
        width > 0,
        height > 0,
        pixels@.len() == 4 * width * height,
    ensures
        state@ == pixels_board(pixels@, width as nat, height as nat),
{
    let ghost board = pixels_board(pixels@, width as nat, height as nat);
    let count = pixels.len();
    let mut rows: Vec<Vec<u8>> = Vec::new();
    let mut y: usize = 0;
    while y < height
        invariant
            0 <= y <= height,
            width > 0,
            count == pixels@.len(),
            pixels@.len() == 4 * width * height,
            board == pixels_board(pixels@, width as nat, height as nat),
            rows@.len() == y,
            forall|k: int| 0 <= k < y ==> (#[trigger] rows@[k])@ == board[k],
        decreases height - y,
    {
        let mut row: Vec<u8> = Vec::new();
        let mut x: usize = 0;
        while x < width
            invariant
                0 <= x <= width,
                y < height,
                count == pixels@.len(),
                pixels@.len() == 4 * width * height,
                board == pixels_board(pixels@, width as nat, height as nat),
                row@.len() == x,
                forall|k: int| 0 <= k < x ==> #[trigger] row@[k] == board[y as int][k],
            decreases width - x,
        {
            assert(0 <= y * width && y * width + x < width * height && 4 * (y * width + x) + 3 < 4
                * width * height) by (nonlinear_arith)
                requires
                    0 <= x < width,
                    0 <= y < height,
            ;
            let at: usize = 4 * (y * width + x);
            let red = pixels[at];
            let green = pixels[at + 1];
            let blue = pixels[at + 2];
            let mean: u16 = (red as u16 + green as u16 + blue as u16) / 3;
            row.push(
                if mean >= 128 {
                    1
                } else {
                    0
                },
            );
            x += 1;
        }
        assert(row@ =~= board[y as int]);
        rows.push(row);
        y += 1;
    }
    proof {
        assert(rows_view(rows@) =~= board);
        assert(is_board(board)) by {
            assert forall|i: int, j: int|
                0 <= i < board.len() && 0 <= j < board[0].len() implies #[trigger] board[i][j]
                <= 1 by {}
        }
    }
    State::from_board(rows)
}

impl PngReader {
    /// Reads a state of the given size from the bytes of a PNG image.
    pub fn read_state(&self, bytes: &[u8], width: usize, height: usize) -> (r: Result<
        State,
        CrudError,
    >)
        requires
            width > 0,
            height > 0,
        ensures
            r is Ok == png_state(bytes@, width as nat, height as nat) is Ok,
            r matches Ok(s) ==> Ok::<Seq<Seq<u8>>, CrudError>(s@) == png_state(
                bytes@,
                width as nat,
                height as nat,
            ),
            r matches Err(e) ==> Err::<Seq<Seq<u8>>, CrudError>(e) == png_state(
                bytes@,
                width as nat,
                height as nat,
            ),
    {
        let decoded = match decode_rgba8(bytes) {
            Some(decoded) => decoded,
            None => {
                return Err(CrudError::UnsupportedImage);
            },
        };
        if decoded.width == 0 || decoded.height == 0 {
            return Err(CrudError::UnsupportedImage);
        }
        assert(4 * decoded.width * decoded.height <= 4 * 0xffff_ffff * 0xffff_ffff)
            by (nonlinear_arith)
            requires
                decoded.width <= 0xffff_ffff,
                decoded.height <= 0xffff_ffff,
        ;
        let expected: u128 = 4 * (decoded.width as u128) * (decoded.height as u128);
        if decoded.pixels.len() as u128 != expected {
            return Err(CrudError::UnsupportedImage);
        }
        if !check_image_fits(width, height, 4) {
            return Err(CrudError::ImageTooLarge);
        }
        assert(4 * decoded.width * height <= 4 * 0xffff_ffff * 0xffff_ffff) by (nonlinear_arith)
            requires
                decoded.width <= 0xffff_ffff,
                height <= 0xffff_ffff,
        ;
        let middle: u128 = 4 * (decoded.width as u128) * (height as u128);
        if middle > usize::MAX as u128 {
            return Err(CrudError::ImageTooLarge);
        }
        let resized = match resize_nearest(&decoded, width as u32, height as u32) {
            Some(resized) => resized,
            None => {
                return Err(CrudError::UnsupportedImage);
            },
        };
        assert(4 * width <= 4 * width * height) by (nonlinear_arith)
            requires
                width > 0,
                height > 0,
        ;
        if resized.len() != 4 * width * height {
            return Err(CrudError::UnsupportedImage);
        }
        Ok(cells_from_pixels(&resized, width, height))
    }
}

/// The raster of a state: one pixel per cell.
pub open spec fn state_raster(cells: Seq<Seq<u8>>) -> RenderView {
    RenderView::Png(cells[0].len() as u32, cells.len() as u32, board_pixels(cells))
}

/// Appends the pixels of a row.
fn push_row_pixels(pixels: &mut Vec<u8>, row: &Vec<u8>)
    ensures
        final(pixels)@ == old(pixels)@ + row_pixels(row@),
{
    let mut x: usize = 0;
    assert(row@.take(0) =~= Seq::<u8>::empty());
    assert(pixels@ =~= old(pixels)@ + row_pixels(row@.take(0)));
    while x < row.len()
        invariant
            0 <= x <= row.len(),
            pixels@ == old(pixels)@ + row_pixels(row@.take(x as int)),
        decreases row.len() - x,
    {
        let ghost after = row@.take(x + 1);
        proof {
            assert(after.drop_last() =~= row@.take(x as int));
            assert(after.last() == row@[x as int]);
        }
        let shade: u8 = if row[x] == 1 {
            255
        } else {
            0
        };
        pixels.push(shade);
        pixels.push(shade);
        pixels.push(shade);
        assert(pixels@ =~= old(pixels)@ + row_pixels(after));
        x += 1;
    }
    assert(row@.take(row.len() as int) =~= row@);
}

impl PngWriter {
    /// Draws a state as a raster: a white pixel for each live cell, a black
    /// one for each dead cell. Fails only for a state too large to be an
    /// image on this machine.
    pub fn gen_state(&self, state: &State) -> (r: Result<Render, CrudError>)
        ensures
            r is Ok <==> image_fits(state@[0].len(), state@.len(), 3),
            r matches Ok(render) ==> render@ == state_raster(state@) && (
            render matches Render::PngState(raster) && raster.has_channels(3)),
            r matches Err(e) ==> e == CrudError::ImageTooLarge,
    {
        let cells = state.get_cells();
        let height = state.height();
        let width = state.width();
        if !check_image_fits(width, height, 3) {
            return Err(CrudError::ImageTooLarge);
        }
        let mut pixels: Vec<u8> = Vec::new();
        let mut y: usize = 0;
        assert(rows_view(cells@).take(0) =~= Seq::<Seq<u8>>::empty());
        while y < cells.len()
            invariant
                0 <= y <= cells.len(),
                pixels@ == board_pixels(rows_view(cells@).take(y as int)),
            decreases cells.len() - y,
        {
            let ghost after = rows_view(cells@).take(y + 1);
            proof {
                assert(after.drop_last() =~= rows_view(cells@).take(y as int));
                assert(after.last() == cells@[y as int]@);
            }
            push_row_pixels(&mut pixels, &cells[y]);
            y += 1;
        }
        proof {
            assert(rows_view(cells@).take(cells.len() as int) =~= rows_view(cells@));
            lemma_board_pixels_len(state@);
        }
        Ok(Render::PngState(Raster { width: width as u32, height: height as u32, pixels }))
    }

    /// The bytes of the PNG image of a raster of three bytes per pixel.
    pub fn encode(&self, raster: &Raster) -> (r: Result<Vec<u8>, CrudError>)
        ensures
            match r {
                Ok(bytes) => raster.has_channels(3) && png_encoding(
                    raster.width,
                    raster.height,
                    raster.pixels@,
                ) == Some(bytes@),
                Err(e) => e == CrudError::EncodingFailed && (!raster.has_channels(3)
                    || png_encoding(raster.width, raster.height, raster.pixels@) is None),
            },
    {
        if raster.width == 0 || raster.height == 0 {
            return Err(CrudError::EncodingFailed);
        }
        assert(3 * raster.width * raster.height <= 3 * 0xffff_ffff * 0xffff_ffff)
            by (nonlinear_arith)
            requires
                raster.width <= 0xffff_ffff,
                raster.height <= 0xffff_ffff,
        ;
        let expected: u128 = 3 * (raster.width as u128) * (raster.height as u128);
        if raster.pixels.len() as u128 != expected {
            return Err(CrudError::EncodingFailed);
        }
        match encode_png(raster) {
            Some(bytes) => Ok(bytes),
            None => Err(CrudError::EncodingFailed),
        }
    }
}

/// The markup that shows an image inside a drawing: the image as a PNG in
/// base64, with its width and height.
pub open spec fn image_markup(width: u32, height: u32, png: Seq<u8>) -> Seq<char> {
    "\n\t\t<image xlink:href=\"data:image/png;charset=utf-8;base64,"@ + base64_url(png) + "\""@
        + " width=\""@ + decimal(width as nat) + "\" height=\""@ + decimal(height as nat) + "\""@
        + "/>\n"@
}

/// Whether `image_to_svg` can draw these PNG bytes: their base64 text must
/// have a length that `usize` counts.
pub open spec fn base64_fits(len: nat) -> bool {
    (len / 3) * 4 + 3 <= usize::MAX
}

/// What showing a raster inside a drawing comes to: its markup, or why
/// there is none.
pub open spec fn raster_markup(width: u32, height: u32, pixels: Seq<u8>) -> Result<
    Seq<char>,
    CrudError,
> {
    if !pixels_fill(width, height, pixels, 3) {
        Err(CrudError::EncodingFailed)
    } else {
        match png_encoding(width, height, pixels) {
            None => Err(CrudError::EncodingFailed),
            Some(png) => if base64_fits(png.len()) {
                Ok(image_markup(width, height, png))
            } else {
                Err(CrudError::ImageTooLarge)
            },
        }
    }
}

/// Turns a raster into the markup that shows it inside a drawing.
pub fn image_to_svg(raster: &Raster) -> (r: Result<String, CrudError>)
    ensures
        r is Ok == raster_markup(raster.width, raster.height, raster.pixels@) is Ok,
        r matches Ok(markup) ==> Ok::<Seq<char>, CrudError>(markup@) == raster_markup(
            raster.width,
            raster.height,
            raster.pixels@,
        ),
        r matches Err(e) ==> Err::<Seq<char>, CrudError>(e) == raster_markup(
            raster.width,
            raster.height,
            raster.pixels@,
        ),
{
    let writer = PngWriter {  };
    let png = match writer.encode(raster) {
        Ok(png) => png,
        Err(e) => {
            return Err(e);
        },
    };
    if png.len() / 3 > (usize::MAX - 3) / 4 {
        return Err(CrudError::ImageTooLarge);
    }
    let mut markup = String::new();
    markup.append("\n\t\t<image xlink:href=\"data:image/png;charset=utf-8;base64,");
    let encoded = encode_base64(png.as_slice());
    markup.append(encoded.as_str());
    markup.append("\"");
    markup.append(" width=\"");
    push_decimal(&mut markup, raster.width as u128);
    markup.append("\" height=\"");
    push_decimal(&mut markup, raster.height as u128);
    markup.append("\"");
    markup.append("/>\n");
    assert(markup@ =~= image_markup(raster.width, raster.height, png@));
    Ok(markup)
}

} // verus!
