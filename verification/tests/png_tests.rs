use base64::Engine;
use game_of_life::error::CrudError;
use game_of_life::png::{
    cells_from_pixels, check_image_fits, image_to_svg, PngReader, PngWriter, Raster,
};
use game_of_life::render::Render;
use game_of_life::state::State;

fn board(rows: &[&[u8]]) -> State {
    State::from_rows(rows.iter().map(|r| r.to_vec()).collect()).unwrap()
}

fn raster_of(state: &State) -> Raster {
    match (PngWriter {}).gen_state(state).unwrap() {
        Render::PngState(raster) => raster,
        Render::TxtState(_) => panic!("a raster is expected"),
    }
}

#[test]
fn live_cells_are_white_and_dead_cells_black() {
    let raster = raster_of(&board(&[&[1, 0], &[0, 1], &[1, 1]]));
    assert_eq!(raster.width, 2);
    assert_eq!(raster.height, 3);
    assert_eq!(
        raster.pixels,
        vec![255, 255, 255, 0, 0, 0, 0, 0, 0, 255, 255, 255, 255, 255, 255, 255, 255, 255]
    );
}

#[test]
fn raster_is_encoded_as_a_png_image() {
    let raster = raster_of(&board(&[&[1, 0], &[0, 1]]));
    let png = (PngWriter {}).encode(&raster).unwrap();
    assert_eq!(&png[..8], &[0x89, b'P', b'N', b'G', 0x0d, 0x0a, 0x1a, 0x0a]);
    assert_ne!(png, raster.pixels);
    let image = image::load_from_memory(&png).unwrap().into_rgb8();
    assert_eq!(image.dimensions(), (2, 2));
    assert_eq!(image.into_raw(), raster.pixels);
}

#[test]
fn raster_with_wrong_size_is_not_encoded() {
    let writer = PngWriter {};
    let short = Raster { width: 2, height: 2, pixels: vec![0; 11] };
    assert_eq!(writer.encode(&short), Err(CrudError::EncodingFailed));
    let empty = Raster { width: 0, height: 3, pixels: vec![] };
    assert_eq!(writer.encode(&empty), Err(CrudError::EncodingFailed));
}

#[test]
fn png_round_trip() {
    let states = [
        board(&[&[1]]),
        board(&[&[0, 1, 1, 0, 1]]),
        board(&[&[1, 0, 0], &[0, 1, 0], &[1, 1, 1], &[0, 0, 0]]),
        State::random(24, 8, 50),
    ];
    for s in states.iter() {
        let png = (PngWriter {}).encode(&raster_of(s)).unwrap();
        let back = (PngReader {}).read_state(&png, s.width(), s.height()).unwrap();
        assert_eq!(&back, s);
    }
}

#[test]
fn image_of_another_size_is_resampled() {
    let s = board(&[&[1, 0], &[0, 1]]);
    let png = (PngWriter {}).encode(&raster_of(&s)).unwrap();
    let back = (PngReader {}).read_state(&png, 4, 4).unwrap();
    assert_eq!(
        back,
        board(&[&[1, 1, 0, 0], &[1, 1, 0, 0], &[0, 0, 1, 1], &[0, 0, 1, 1]])
    );
    let big = board(&[&[1, 1, 0, 0], &[1, 1, 0, 0], &[0, 0, 1, 1], &[0, 0, 1, 1]]);
    let png = (PngWriter {}).encode(&raster_of(&big)).unwrap();
    assert_eq!((PngReader {}).read_state(&png, 2, 2).unwrap(), s);
}

#[test]
fn bytes_that_are_no_image_are_refused() {
    let reader = PngReader {};
    assert_eq!(reader.read_state(b"0,1\n1,0\n", 2, 2), Err(CrudError::UnsupportedImage));
    assert_eq!(reader.read_state(&[], 2, 2), Err(CrudError::UnsupportedImage));
    let png = (PngWriter {}).encode(&raster_of(&board(&[&[1, 0]]))).unwrap();
    assert_eq!(reader.read_state(&png[..png.len() / 2], 2, 1), Err(CrudError::UnsupportedImage));
}

#[test]
fn board_too_large_for_an_image_is_refused() {
    let png = (PngWriter {}).encode(&raster_of(&board(&[&[1, 0]]))).unwrap();
    let reader = PngReader {};
    assert_eq!(reader.read_state(&png, u32::MAX as usize + 1, 1), Err(CrudError::ImageTooLarge));
    assert_eq!(reader.read_state(&png, 1, u32::MAX as usize + 1), Err(CrudError::ImageTooLarge));
}

#[test]
fn pixels_become_cells_by_their_brightness() {
    // Means 127 and 128, and an alpha that does not count.
    let pixels = vec![127, 127, 127, 255, 128, 128, 128, 0, 0, 0, 255, 255, 255, 255, 0, 9];
    assert_eq!(cells_from_pixels(&pixels, 2, 2), board(&[&[0, 1], &[0, 1]]));
    let pixels = vec![128, 128, 127, 255, 129, 128, 127, 255, 255, 129, 0, 1];
    assert_eq!(cells_from_pixels(&pixels, 3, 1), board(&[&[0, 1, 1]]));
}

#[test]
fn grey_image_is_read_by_its_brightness() {
    let mut image = image::RgbImage::new(2, 1);
    image.put_pixel(0, 0, image::Rgb([200, 100, 90]));
    image.put_pixel(1, 0, image::Rgb([200, 100, 80]));
    let mut png = Vec::new();
    image
        .write_to(&mut std::io::Cursor::new(&mut png), image::ImageOutputFormat::Png)
        .unwrap();
    assert_eq!((PngReader {}).read_state(&png, 2, 1).unwrap(), board(&[&[1, 0]]));
}

#[test]
fn sizes_that_fit() {
    assert!(check_image_fits(240, 32, 3));
    assert!(check_image_fits(1, 1, 4));
    assert!(check_image_fits(u32::MAX as usize, 1, 4));
    assert!(!check_image_fits(u32::MAX as usize + 1, 1, 1));
    assert!(!check_image_fits(1, u32::MAX as usize + 1, 1));
    assert!(!check_image_fits(u32::MAX as usize, u32::MAX as usize, 4));
}

#[test]
fn raster_is_shown_as_an_embedded_image() {
    let raster = raster_of(&board(&[&[1, 0, 1], &[0, 1, 0]]));
    let markup = image_to_svg(&raster).unwrap();
    let head = "\n\t\t<image xlink:href=\"data:image/png;charset=utf-8;base64,";
    let tail = "\" width=\"3\" height=\"2\"/>\n";
    assert!(markup.starts_with(head));
    assert!(markup.ends_with(tail));
    let encoded = &markup[head.len()..markup.len() - tail.len()];
    let png = (PngWriter {}).encode(&raster).unwrap();
    assert_eq!(encoded, base64::engine::general_purpose::URL_SAFE_NO_PAD.encode(&png));
    assert!(!encoded.contains('='));
    assert!(!encoded.contains('+'));
    assert!(!encoded.contains('/'));
    let decoded = base64::engine::general_purpose::URL_SAFE_NO_PAD.decode(encoded).unwrap();
    assert_eq!(decoded, png);
}

#[test]
fn raster_that_is_none_is_not_shown() {
    let raster = Raster { width: 3, height: 2, pixels: vec![0; 4] };
    assert_eq!(image_to_svg(&raster), Err(CrudError::EncodingFailed));
}
