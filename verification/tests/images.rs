//! The store of pictures: names, sizes and what may be dropped.

use mindmap::images::{
    describe, hash_hex, is_image_file, path, plan, plan_converted, sniff, store_dir, Import, Plan,
};

/// A PNG of one colour.
fn png(w: u32, h: u32, rgba: [u8; 4]) -> Vec<u8> {
    let mut out = Vec::new();
    let img = image::RgbaImage::from_pixel(w, h, image::Rgba(rgba));
    image::DynamicImage::ImageRgba8(img)
        .write_to(&mut std::io::Cursor::new(&mut out), image::ImageFormat::Png)
        .unwrap();
    out
}

fn png_2x1() -> Vec<u8> {
    png(2, 1, [255, 0, 0, 255])
}

fn import(bytes: &Vec<u8>) -> Import {
    match plan(bytes) {
        Plan::Keep(import) => import,
        other => panic!("not kept: {other:?}"),
    }
}

#[test]
fn importing_twice_writes_one_file() {
    let bytes = png_2x1();
    let a = import(&bytes);
    let b = import(&bytes);
    assert_eq!(a, b);
    assert_eq!(a.w, 2);
    assert_eq!(a.h, 1);
    assert!(a.name.ends_with(".png"));
    assert_eq!(path("/data", &a.name), path("/data", &b.name), "the same bytes must be one file");
}

#[test]
fn different_bytes_get_different_names() {
    let a = import(&png_2x1());
    let b = import(&png(3, 2, [0, 0, 255, 255]));
    assert_ne!(a.name, b.name);
    assert_eq!((b.w, b.h), (3, 2));
}

#[test]
fn junk_is_not_an_image() {
    let junk = b"this is not an image at all".to_vec();
    assert_eq!(sniff(&junk), None);
    assert_eq!(plan(&junk), Plan::Convert);
    assert_eq!(plan_converted(&junk), None);
}

#[test]
fn the_store_sits_inside_the_data_directory() {
    let dir = "/tmp/x";
    assert_eq!(path(dir, "a.png"), "/tmp/x/images/a.png");
    assert!(path(dir, "a.png").starts_with('/'));
}

#[test]
fn droppable_files_are_recognised_by_extension() {
    assert!(is_image_file("/a/b.PNG"));
    assert!(is_image_file("/a/b.heic"));
    assert!(!is_image_file("/a/b.md"));
    assert!(!is_image_file("/a/b"));
}

#[test]
fn the_store_is_a_folder_of_the_data_directory() {
    assert_eq!(store_dir("/tmp/x"), "/tmp/x/images");
    assert_eq!(store_dir("/tmp/x/"), "/tmp/x/images");
}

#[test]
fn a_name_is_the_beginning_of_a_digest() {
    assert_eq!(hash_hex(&b"abc".to_vec()), "ba7816bf8f01cfea");
    let d = describe(&b"abc".to_vec(), "gif", Some((7, 9))).unwrap();
    assert_eq!((d.name.as_str(), d.w, d.h), ("ba7816bf8f01cfea.gif", 7, 9));
    assert_eq!(describe(&b"abc".to_vec(), "gif", None), None);
}

#[test]
fn what_begins_like_a_picture_and_is_none_is_refused() {
    let cut = png_2x1()[..9].to_vec();
    assert_eq!(sniff(&cut), Some("png".to_string()));
    assert_eq!(plan(&cut), Plan::Refuse);
}

#[test]
fn a_format_is_told_from_the_bytes() {
    let mut gif = b"GIF89a".to_vec();
    gif.extend([0u8; 20]);
    assert_eq!(sniff(&gif), Some("gif".to_string()));
    assert_eq!(sniff(&b"DDS \0\0\0\0\0\0\0\0".to_vec()), None, "known, but not kept");
}

#[test]
fn what_the_system_made_counts_as_a_png() {
    let d = plan_converted(&png_2x1()).unwrap();
    assert!(d.name.ends_with(".png"));
    assert_eq!((d.w, d.h), (2, 1));
}
