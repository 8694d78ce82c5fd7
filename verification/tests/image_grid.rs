use image::{DynamicImage, GrayImage, ImageOutputFormat, Luma, Rgb, Rgb32FImage, RgbImage, Rgba, Rgba32FImage};
use nalgebra::SMatrix;
use phash_pipeline::grid::{grid_of, image_format, nan_among, HashError, GRID_LEN, GRID_SIDE};
use phash_pipeline::keys::{from_key, order_key, NO_NUMBER};
use phash_pipeline::median::{low_frequency_block, middle_pair, threshold_hash};
use std::io::Cursor;

type Matrix32x32 = SMatrix<f32, 32, 32>;

fn encoded(img: DynamicImage, format: ImageOutputFormat) -> Vec<u8> {
    let mut out = Cursor::new(Vec::new());
    img.write_to(&mut out, format).unwrap();
    out.into_inner()
}

fn gray_png(width: u32, height: u32, value: fn(u32, u32) -> u8) -> Vec<u8> {
    let img = GrayImage::from_fn(width, height, |x, y| Luma([value(x, y)]));
    encoded(DynamicImage::ImageLuma8(img), ImageOutputFormat::Png)
}

fn rgb_png(width: u32, height: u32, value: fn(u32, u32) -> [u8; 3]) -> Vec<u8> {
    let img = RgbImage::from_fn(width, height, |x, y| Rgb(value(x, y)));
    encoded(DynamicImage::ImageRgb8(img), ImageOutputFormat::Png)
}

fn dct_matrix() -> Matrix32x32 {
    let size = 32.0f32;
    let c1 = (2.0 / size).sqrt();
    Matrix32x32::from_fn(|y, x| {
        if y == 0 {
            return 1.0 / size.sqrt();
        }
        c1 * ((std::f32::consts::PI / 2.0 / size) * (y as f32) * ((2 * x + 1) as f32)).cos()
    })
}

/// The transform of a sample grid.
fn transform(samples: &[u8]) -> Matrix32x32 {
    let dct = dct_matrix();
    let img = Matrix32x32::from_row_iterator(samples.iter().map(|v| *v as f32));
    dct * img * dct.transpose()
}

/// The sample grid of an image file: the format found by the library, the file
/// decoded by the `image` crate, the grid made by the library.
fn sample_grid(data: &[u8]) -> Result<Vec<u8>, HashError> {
    let format = image_format(data)?;
    grid_of(image::load_from_memory_with_format(data, format))
}

/// The hash, computed by the library from order keys.
fn hash_by_keys(samples: &[u8]) -> u64 {
    let transformed = transform(samples);
    let mut keys = [0i32; 1024];
    for row in 0..32 {
        for col in 0..32 {
            keys[row * 32 + col] = order_key(transformed[(row, col)].to_bits());
        }
    }
    let block = low_frequency_block(&keys);
    assert!(block.iter().all(|key| *key != NO_NUMBER));
    let (low, high) = middle_pair(&block);
    let median = (f32::from_bits(from_key(low)) + f32::from_bits(from_key(high))) / 2.0;
    threshold_hash(&block, order_key(median.to_bits()))
}

/// The hash, computed on the numbers themselves.
fn hash_by_numbers(samples: &[u8]) -> u64 {
    let transformed = transform(samples);
    let values: Vec<f32> = transformed.fixed_view::<8, 8>(1, 1).iter().copied().collect();
    let mut sorted = values.clone();
    sorted.sort_by(|a, b| a.partial_cmp(b).unwrap());
    let median = (sorted[31] + sorted[32]) / 2.0;
    let mut hash = 0u64;
    for (i, v) in values.iter().enumerate() {
        if *v >= median {
            hash |= 1 << i;
        }
    }
    hash
}

fn gradient(x: u32, y: u32) -> u8 {
    ((x * 8 + y * 3) % 256) as u8
}

fn checker(x: u32, y: u32) -> u8 {
    if (x / 8 + y / 8) % 2 == 0 {
        230
    } else {
        20
    }
}

fn black(_x: u32, _y: u32) -> u8 {
    0
}

fn white(_x: u32, _y: u32) -> u8 {
    255
}

#[test]
fn grid_constants() {
    assert_eq!(GRID_SIDE, 32);
    assert_eq!(GRID_LEN, 1024);
}

#[test]
fn grid_of_a_32_by_32_grey_image_is_its_pixels() {
    let samples = sample_grid(&gray_png(32, 32, gradient)).unwrap();
    assert_eq!(samples.len(), 1024);
    for y in 0..32u32 {
        for x in 0..32u32 {
            assert_eq!(samples[(y * 32 + x) as usize], gradient(x, y));
        }
    }
}

#[test]
fn grid_of_a_colour_image_is_grey() {
    let red = sample_grid(&rgb_png(32, 32, |_, _| [255, 0, 0])).unwrap();
    assert_eq!(red, vec![54u8; 1024]);
    let green = sample_grid(&rgb_png(32, 32, |_, _| [0, 255, 0])).unwrap();
    assert_eq!(green, vec![182u8; 1024]);
    let blue = sample_grid(&rgb_png(32, 32, |_, _| [0, 0, 255])).unwrap();
    assert_eq!(blue, vec![18u8; 1024]);
}

#[test]
fn grid_of_a_larger_image_has_1024_samples() {
    for (w, h) in [(64, 64), (100, 37), (1, 1), (33, 32), (32, 31), (500, 3)] {
        let samples = sample_grid(&gray_png(w, h, gradient)).unwrap();
        assert_eq!(samples.len(), GRID_LEN);
    }
}

#[test]
fn grid_of_a_solid_image_is_solid() {
    assert_eq!(sample_grid(&gray_png(64, 64, black)).unwrap(), vec![0u8; 1024]);
    assert_eq!(sample_grid(&gray_png(64, 64, white)).unwrap(), vec![255u8; 1024]);
    assert_eq!(sample_grid(&gray_png(7, 90, white)).unwrap(), vec![255u8; 1024]);
}

#[test]
fn grid_of_a_resampled_image_follows_the_image() {
    let samples = sample_grid(&gray_png(64, 64, |x, _| if x < 32 { 0 } else { 255 })).unwrap();
    for y in 0..32 {
        assert!(samples[y * 32 + 2] < 30);
        assert!(samples[y * 32 + 29] > 225);
    }
}

#[test]
fn grid_reads_other_formats() {
    let img = DynamicImage::ImageLuma8(GrayImage::from_fn(32, 32, |x, y| Luma([gradient(x, y)])));
    let from_png = sample_grid(&encoded(img.clone(), ImageOutputFormat::Png)).unwrap();
    let from_bmp = sample_grid(&encoded(img.clone(), ImageOutputFormat::Bmp)).unwrap();
    assert_eq!(from_png, from_bmp);
    let from_jpeg = sample_grid(&encoded(img, ImageOutputFormat::Jpeg(90))).unwrap();
    assert_eq!(from_jpeg.len(), 1024);
}

#[test]
fn unknown_format_is_its_own_error() {
    assert_eq!(sample_grid(b""), Err(HashError::UnknownFormat));
    assert_eq!(sample_grid(b"this is no image"), Err(HashError::UnknownFormat));
    assert_eq!(sample_grid(&[0u8; 64]), Err(HashError::UnknownFormat));
}

#[test]
fn undecodable_image_is_its_own_error() {
    assert_eq!(sample_grid(b"\x89PNG\r\n\x1a\nand then nothing"), Err(HashError::Undecodable));
    assert_eq!(sample_grid(&[0xFF, 0xD8, 0xFF]), Err(HashError::Undecodable));
    let mut cut = gray_png(64, 64, gradient);
    cut.truncate(40);
    assert_eq!(sample_grid(&cut), Err(HashError::Undecodable));
}

#[test]
fn grid_of_a_decoded_image() {
    let img = DynamicImage::ImageLuma8(GrayImage::from_fn(32, 32, |x, y| Luma([gradient(x, y)])));
    let samples = grid_of(Ok(img)).unwrap();
    assert_eq!(samples.len(), 1024);
    assert_eq!(samples[33], gradient(1, 1));
    let wide = DynamicImage::ImageRgb8(RgbImage::from_fn(300, 2, |_, _| Rgb([255, 255, 255])));
    assert_eq!(grid_of(Ok(wide)), Ok(vec![255u8; 1024]));
}

#[test]
fn image_format_is_found_in_the_first_bytes() {
    assert_eq!(image_format(&gray_png(3, 3, gradient)), Ok(image::ImageFormat::Png));
    assert_eq!(image_format(b"\x89PNG\r\n\x1a\n"), Ok(image::ImageFormat::Png));
    assert_eq!(image_format(&[0xFF, 0xD8, 0xFF, 0x00]), Ok(image::ImageFormat::Jpeg));
    assert_eq!(image_format(b"RIFF and so on"), Ok(image::ImageFormat::WebP));
    assert_eq!(image_format(b"farbfeld"), Ok(image::ImageFormat::Farbfeld));
    assert_eq!(image_format(b""), Err(HashError::UnknownFormat));
    assert_eq!(image_format(b"\x89PN"), Err(HashError::UnknownFormat));
    assert_eq!(image_format(b"no image"), Err(HashError::UnknownFormat));
}

#[test]
fn image_of_rows_without_columns_is_undecodable() {
    assert_eq!(grid_of(Ok(DynamicImage::new_luma8(0, 2))), Err(HashError::Undecodable));
    assert_eq!(grid_of(Ok(DynamicImage::new_rgba16(0, 700))), Err(HashError::Undecodable));
    let mut file = b"farbfeld".to_vec();
    file.extend_from_slice(&[0, 0, 0, 0]);
    file.extend_from_slice(&[0, 0, 0, 2]);
    assert_eq!(sample_grid(&file), Err(HashError::Undecodable));
}

#[test]
fn image_without_pixels_in_one_row_gives_a_dark_grid() {
    assert_eq!(grid_of(Ok(DynamicImage::new_luma8(0, 0))), Ok(vec![0u8; 1024]));
    assert_eq!(grid_of(Ok(DynamicImage::new_luma8(0, 1))), Ok(vec![0u8; 1024]));
    assert_eq!(grid_of(Ok(DynamicImage::new_rgb8(5, 0))), Ok(vec![0u8; 1024]));
}

#[test]
fn grid_of_a_failed_decoding() {
    let failure = image::ImageError::IoError(std::io::Error::new(
        std::io::ErrorKind::UnexpectedEof,
        "cut short",
    ));
    assert_eq!(grid_of(Err(failure)), Err(HashError::Undecodable));
}

#[test]
fn nan_among_bit_patterns() {
    assert!(!nan_among(&Vec::new()));
    assert!(!nan_among(&vec![0, 0x3F80_0000, 0x7F80_0000, 0xFF80_0000, 0x7F7F_FFFF, 0x8000_0000]));
    assert!(nan_among(&vec![0, 0x7FC0_0000]));
    assert!(nan_among(&vec![0x7F80_0001, 0]));
    assert!(nan_among(&vec![1, 2, 0xFFFF_FFFF]));
    assert!(nan_among(&vec![0xFF80_0001]));
    assert!(!nan_among(&vec![0x007F_FFFF, 0x7F00_0000, 0x0080_0000]));
}

#[test]
fn nan_among_agrees_with_the_numbers() {
    let mut bits: u32 = 0;
    loop {
        assert_eq!(nan_among(&vec![bits]), f32::from_bits(bits).is_nan(), "{:08X}", bits);
        match bits.checked_add(0x0000_FFF1) {
            Some(next) => bits = next,
            None => break,
        }
    }
}

#[test]
fn grid_of_an_image_of_floating_samples() {
    let img = Rgb32FImage::from_fn(40, 40, |x, _| Rgb([x as f32 / 40.0, 0.5, f32::INFINITY]));
    let samples = grid_of(Ok(DynamicImage::ImageRgb32F(img))).unwrap();
    assert_eq!(samples.len(), 1024);
    let flat = Rgba32FImage::from_fn(32, 32, |_, _| Rgba([1.0, 1.0, 1.0, 0.25]));
    assert_eq!(grid_of(Ok(DynamicImage::ImageRgba32F(flat))), Ok(vec![255u8; 1024]));
    let dark = Rgb32FImage::from_fn(32, 32, |_, _| Rgb([f32::NEG_INFINITY, -3.0, 0.0]));
    assert_eq!(grid_of(Ok(DynamicImage::ImageRgb32F(dark))), Ok(vec![0u8; 1024]));
}

#[test]
fn image_with_a_sample_that_is_no_number_is_undecodable() {
    let img = Rgb32FImage::from_fn(40, 40, |x, y| {
        Rgb([0.5, if x == 7 && y == 9 { f32::NAN } else { 0.25 }, 0.0])
    });
    assert_eq!(grid_of(Ok(DynamicImage::ImageRgb32F(img))), Err(HashError::Undecodable));
    let img = Rgba32FImage::from_fn(32, 32, |x, y| {
        Rgba([0.5, 0.5, 0.5, if x == 31 && y == 31 { -f32::NAN } else { 1.0 }])
    });
    assert_eq!(grid_of(Ok(DynamicImage::ImageRgba32F(img))), Err(HashError::Undecodable));
}

#[test]
fn file_with_a_sample_that_is_no_number_is_undecodable() {
    let sound = Rgb32FImage::from_fn(36, 36, |_, _| Rgb([0.5, 0.25, 0.0]));
    let bytes = encoded(DynamicImage::ImageRgb32F(sound), ImageOutputFormat::OpenExr);
    assert_eq!(sample_grid(&bytes).map(|samples| samples.len()), Ok(1024));
    let broken = Rgb32FImage::from_fn(36, 36, |x, _| Rgb([0.5, 0.25, if x == 3 { f32::NAN } else { 0.0 }]));
    let bytes = encoded(DynamicImage::ImageRgb32F(broken), ImageOutputFormat::OpenExr);
    assert_eq!(sample_grid(&bytes), Err(HashError::Undecodable));
}

#[test]
fn error_messages() {
    assert_eq!(HashError::Unreadable.message(), "Error reading image");
    assert_eq!(HashError::UnknownFormat.message(), "Error guessing image format");
    assert_eq!(HashError::Undecodable.message(), "Error decoding image");
}

#[test]
fn hash_by_keys_is_the_hash_by_numbers() {
    let images = [
        gray_png(64, 64, gradient),
        gray_png(64, 64, checker),
        gray_png(40, 90, checker),
        gray_png(64, 64, black),
        gray_png(64, 64, white),
        rgb_png(50, 50, |x, y| [(x * 5) as u8, (y * 5) as u8, ((x + y) * 2) as u8]),
    ];
    for image in images {
        let samples = sample_grid(&image).unwrap();
        assert_eq!(hash_by_keys(&samples), hash_by_numbers(&samples));
    }
}

#[test]
fn same_image_same_hash() {
    let image = gray_png(64, 64, checker);
    let first = hash_by_keys(&sample_grid(&image).unwrap());
    let second = hash_by_keys(&sample_grid(&image.clone()).unwrap());
    assert_eq!(first, second);
    assert_eq!((first ^ second).count_ones(), 0);
}

#[test]
fn black_and_white_images_differ() {
    let dark = hash_by_keys(&sample_grid(&gray_png(64, 64, black)).unwrap());
    let light = hash_by_keys(&sample_grid(&gray_png(64, 64, white)).unwrap());
    assert_eq!(dark, u64::MAX);
    assert_ne!((dark ^ light).count_ones(), 0);
}

#[test]
fn different_patterns_differ() {
    let a = hash_by_keys(&sample_grid(&gray_png(64, 64, gradient)).unwrap());
    let b = hash_by_keys(&sample_grid(&gray_png(64, 64, checker)).unwrap());
    assert_ne!((a ^ b).count_ones(), 0);
}
