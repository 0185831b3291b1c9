use morph::canvas::{binarize, canvas_to_luma, fill_disk, new_canvas, CANVAS_LEN, HEIGHT, WIDTH};

fn at(canvas: &Vec<bool>, x: usize, y: usize) -> bool {
    canvas[y * 256 + x]
}

fn black_pixels(canvas: &Vec<bool>) -> usize {
    canvas.iter().filter(|p| **p).count()
}

#[test]
fn new_canvas_is_blank() {
    let c = new_canvas();
    assert_eq!(c.len(), (WIDTH * HEIGHT) as usize);
    assert_eq!(c.len(), CANVAS_LEN);
    assert!(c.iter().all(|p| !*p));
}

#[test]
fn fill_disk_radius_two_paints_thirteen_pixels() {
    let mut c = new_canvas();
    fill_disk(&mut c, 10, 20, 2, true);
    assert_eq!(black_pixels(&c), 13);
    assert!(at(&c, 10, 20));
    assert!(at(&c, 12, 20));
    assert!(at(&c, 10, 18));
    assert!(at(&c, 11, 21));
    assert!(!at(&c, 12, 21));
    assert!(!at(&c, 13, 20));
}

#[test]
fn fill_disk_radius_zero_paints_centre_only() {
    let mut c = new_canvas();
    fill_disk(&mut c, 0, 0, 0, true);
    assert_eq!(black_pixels(&c), 1);
    assert!(at(&c, 0, 0));
}

#[test]
fn fill_disk_negative_radius_paints_nothing() {
    let mut c = new_canvas();
    fill_disk(&mut c, 50, 50, -3, true);
    assert_eq!(black_pixels(&c), 0);
}

#[test]
fn fill_disk_clips_at_the_corner() {
    let mut c = new_canvas();
    fill_disk(&mut c, 0, 0, 1, true);
    // only the quarter of the 5-pixel disk that lies on the canvas
    assert_eq!(black_pixels(&c), 3);
    let mut d = new_canvas();
    fill_disk(&mut d, 255, 255, 1, true);
    assert_eq!(black_pixels(&d), 3);
    assert!(at(&d, 255, 255) && at(&d, 254, 255) && at(&d, 255, 254));
}

#[test]
fn fill_disk_off_canvas_changes_nothing() {
    let mut c = new_canvas();
    fill_disk(&mut c, -100, 400, 5, true);
    assert_eq!(black_pixels(&c), 0);
}

#[test]
fn fill_disk_white_erases() {
    let mut c = new_canvas();
    fill_disk(&mut c, 100, 100, 3, true);
    let before = black_pixels(&c);
    fill_disk(&mut c, 100, 100, 1, false);
    assert_eq!(black_pixels(&c), before - 5);
    assert!(!at(&c, 100, 100));
    assert!(at(&c, 103, 100));
}

#[test]
fn fill_disk_twice_is_once() {
    let mut once = new_canvas();
    fill_disk(&mut once, 40, 60, 4, true);
    let mut twice = once.clone();
    fill_disk(&mut twice, 40, 60, 4, true);
    assert_eq!(once, twice);
}

#[test]
fn binarize_thresholds_at_128() {
    let c = binarize(&vec![0, 127, 128, 255]);
    assert_eq!(c, vec![true, true, false, false]);
    assert!(binarize(&Vec::new()).is_empty());
}

#[test]
fn luma_of_canvas() {
    let mut c = new_canvas();
    c[5] = true;
    let l = canvas_to_luma(&c);
    assert_eq!(l.len(), CANVAS_LEN);
    assert_eq!(l[5], 0);
    assert_eq!(l[4], 255);
    assert_eq!(l[CANVAS_LEN - 1], 255);
}

#[test]
fn luma_round_trip_gives_canvas_back() {
    let mut c = new_canvas();
    fill_disk(&mut c, 128, 128, 8, true);
    fill_disk(&mut c, 3, 250, 2, true);
    assert_eq!(binarize(&canvas_to_luma(&c)), c);
}

#[test]
fn fill_disk_large_negative_radius_paints_nothing() {
    let mut c = new_canvas();
    fill_disk(&mut c, 0, 0, -100000, true);
    assert_eq!(black_pixels(&c), 0);
}

fn encode(width: u32, height: u32, luma: Vec<u8>, format: image::ImageFormat) -> Vec<u8> {
    let img = image::GrayImage::from_raw(width, height, luma).unwrap();
    let mut buf = std::io::Cursor::new(Vec::new());
    img.write_to(&mut buf, format).unwrap();
    buf.into_inner()
}

#[test]
fn saved_canvas_loads_back() {
    let mut c = new_canvas();
    fill_disk(&mut c, 128, 128, 8, true);
    fill_disk(&mut c, 3, 250, 2, true);
    let png = encode(WIDTH, HEIGHT, canvas_to_luma(&c), image::ImageFormat::Png);
    assert_eq!(morph::canvas::load_canvas(&png, "target.png").unwrap(), c);
}

#[test]
fn small_image_is_resized_to_the_canvas() {
    let black = encode(4, 3, vec![0; 12], image::ImageFormat::Png);
    let c = morph::canvas::load_canvas(&black, "small.png").unwrap();
    assert_eq!(c.len(), CANVAS_LEN);
    assert!(c.iter().all(|p| *p));
    let grey = encode(5, 5, vec![200; 25], image::ImageFormat::Bmp);
    let d = morph::canvas::load_canvas(&grey, "small.bmp").unwrap();
    assert_eq!(d.len(), CANVAS_LEN);
    assert!(d.iter().all(|p| !*p));
}

#[test]
fn format_is_recognised_from_the_bytes() {
    let black = encode(2, 2, vec![10; 4], image::ImageFormat::Png);
    let c = morph::canvas::load_canvas(&black, "misnamed.jpg").unwrap();
    assert!(c.iter().all(|p| *p));
}

#[test]
fn undecodable_bytes_are_refused() {
    assert!(morph::canvas::load_canvas(&b"not an image at all".to_vec(), "x.png").is_err());
    assert!(morph::canvas::load_canvas(&Vec::new(), "x").is_err());
}

#[test]
fn fill_disk_on_a_longer_canvas_keeps_the_tail() {
    let mut c = new_canvas();
    c.extend(vec![true, false, true]);
    fill_disk(&mut c, 255, 255, 3, false);
    fill_disk(&mut c, 0, 0, 2, true);
    assert_eq!(c.len(), CANVAS_LEN + 3);
    assert_eq!(&c[CANVAS_LEN..], &[true, false, true]);
    assert!(at(&c, 0, 0));
}
