//! Decoded pictures: their size in memory, and which of them stay.

use mindmap::image_bank::decode::{bytes_of, decode, prepare, swap_red_and_blue, target};
use mindmap::image_bank::{Bank, Resolved, BUDGET, MAX_EDGE};

fn png(w: u32, h: u32) -> Vec<u8> {
    let mut out = Vec::new();
    image::DynamicImage::ImageRgba8(image::RgbaImage::from_pixel(
        w,
        h,
        image::Rgba([1, 2, 3, 255]),
    ))
    .write_to(&mut std::io::Cursor::new(&mut out), image::ImageFormat::Png)
    .unwrap();
    out
}

/// The size that keeps the ratio and brings the longest side to `edge`.
fn fit(w: u32, h: u32, edge: u32) -> (u32, u32) {
    let scale = edge as f32 / w.max(h) as f32;
    ((w as f32 * scale).round().max(1.0) as u32, (h as f32 * scale).round().max(1.0) as u32)
}

#[test]
fn decoding_downscales_to_the_cap_and_keeps_the_aspect_ratio() {
    let image = decode(&png(800, 400), "a.png", 100, &fit).expect("decodes");
    assert_eq!(image.w, 100);
    assert_eq!(image.h, 50);
    assert_eq!(image.bgra.len(), 100 * 50 * 4);
}

#[test]
fn an_image_under_the_cap_is_left_alone() {
    let image = decode(&png(40, 20), "a.png", 100, &fit).expect("decodes");
    assert_eq!((image.w, image.h), (40, 20));
}

#[test]
fn a_missing_or_broken_file_decodes_to_nothing_rather_than_panicking() {
    assert!(decode(&Vec::new(), "a.png", 100, &fit).is_none());
    assert!(decode(&b"not a png".to_vec(), "a.png", 100, &fit).is_none());
}

#[test]
fn the_resident_total_is_the_sum_of_what_is_held() {
    let mut bank = Bank::new();
    assert_eq!(bank.resident_bytes(), 0);

    let mut expected = 0;
    for (i, (w, h)) in [(100u32, 50u32), (60, 60), (10, 200)].iter().enumerate() {
        let image = decode(&png(*w, *h), "a.png", MAX_EDGE, &fit).unwrap();
        let bytes = bytes_of(&vec![(image.w, image.h)]);
        expected += bytes;
        bank.store(&format!("/{i}.png"), Some(bytes));
    }
    assert_eq!(bank.resident_bytes(), expected);

    bank.store("/gone.png", None);
    assert_eq!(bank.resident_bytes(), expected);
}

#[test]
fn the_byte_count_is_the_decoded_size_not_the_file_size() {
    let file = png(200, 100);
    let image = decode(&file, "a.png", MAX_EDGE, &fit).unwrap();
    assert_eq!(bytes_of(&vec![(image.w, image.h)]), 200 * 100 * 4);
    assert!(file.len() < 200 * 100 * 4);
}

#[test]
fn pixels_come_out_blue_first() {
    let image = decode(&png(1, 1), "a.png", MAX_EDGE, &fit).unwrap();
    assert_eq!(image.bgra, vec![3, 2, 1, 255]);
    let mut two = vec![1, 2, 3, 4, 5, 6, 7, 8];
    swap_red_and_blue(&mut two);
    assert_eq!(two, vec![3, 2, 1, 4, 7, 6, 5, 8]);
}

#[test]
fn only_what_is_too_large_gets_another_size() {
    assert_eq!(target(800, 400, 100, &fit), Some((100, 50)));
    assert_eq!(target(100, 100, 100, &fit), None);
}

#[test]
fn a_decode_is_begun_once() {
    let mut bank = Bank::new();
    assert!(matches!(bank.get("/a.png", None), Resolved::Loading { start: true }));
    assert!(matches!(bank.get("/a.png", None), Resolved::Loading { start: false }));
    assert!(matches!(bank.get("/a.png", Some(Some(40))), Resolved::Ready));
    assert_eq!(bank.resident_bytes(), 40);
    assert!(matches!(bank.get("/a.png", None), Resolved::Ready));
    assert!(matches!(bank.get("/b.png", None), Resolved::Loading { start: true }));
    assert!(matches!(bank.get("/b.png", Some(None)), Resolved::Missing));
    assert!(matches!(bank.get("/b.png", None), Resolved::Missing));
}

#[test]
fn what_was_not_drawn_makes_room() {
    let mut bank = Bank::new();
    bank.begin_frame(&Vec::new());
    bank.store("/old.png", Some(BUDGET));
    for _ in 0..4 {
        bank.begin_frame(&Vec::new());
    }
    bank.store("/new.png", Some(10));
    let dropped = bank.begin_frame(&Vec::new());
    assert_eq!(dropped, vec!["/old.png".to_string()]);
    assert_eq!(bank.resident_bytes(), 10);
}

#[test]
fn what_fits_the_budget_stays() {
    let mut bank = Bank::new();
    bank.begin_frame(&vec![("/a.png".to_string(), Some(10))]);
    bank.store("/b.png", Some(20));
    for _ in 0..10 {
        assert!(bank.begin_frame(&Vec::new()).is_empty());
    }
    assert_eq!(bank.resident_bytes(), 20);
}

#[test]
fn what_was_read_is_drawn_in_the_order_of_the_screen() {
    assert!(prepare(None, 100, &fit).is_none());
    let mut image = image::RgbaImage::new(2, 1);
    image.put_pixel(0, 0, image::Rgba([1, 2, 3, 4]));
    image.put_pixel(1, 0, image::Rgba([5, 6, 7, 8]));
    let drawn = prepare(Some(image::DynamicImage::ImageRgba8(image)), 100, &fit).unwrap();
    assert_eq!((drawn.w, drawn.h), (2, 1));
    assert_eq!(drawn.bgra, vec![3, 2, 1, 4, 7, 6, 5, 8]);
    let wide = image::DynamicImage::new_rgba8(400, 100);
    let drawn = prepare(Some(wide), 100, &fit).unwrap();
    assert_eq!((drawn.w, drawn.h, drawn.bgra.len()), (100, 25, 100 * 25 * 4));
}

#[test]
fn a_picture_is_told_by_its_bytes_before_its_name() {
    assert!(decode(&png(8, 8), "a.bmp", 100, &fit).is_some());
    assert!(decode(&png(8, 8), "a", 100, &fit).is_some());
    // Without a known beginning the name decides, and the bytes are no picture.
    assert!(decode(&b"\0\0\0\0".to_vec(), "a.bmp", 100, &fit).is_none());
}
