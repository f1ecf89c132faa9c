//! Decoding an image for the bank: downscaled to the longest edge that is kept,
//! with its colours in the order that the screen wants.

use vstd::prelude::*;

verus! {

/// `image::DynamicImage`: a decoded image, of whatever pixels the file has.
#[verifier::external_type_specification]
#[verifier::external_body]
pub struct ExDynamicImage(image::DynamicImage);

/// The width and the height of an image.
pub uninterp spec fn size(image: image::DynamicImage) -> (u32, u32);

/// The pixels of an image, as red, green, blue and alpha of eight bits each.
pub uninterp spec fn pixels(image: image::DynamicImage) -> Seq<u8>;

/// `image::DynamicImage::width`: the width of the image.
pub assume_specification[ image::DynamicImage::width ](image: &image::DynamicImage) -> (r: u32)
    ensures
        r == size(*image).0,
;

/// `image::DynamicImage::height`: the height of the image.
pub assume_specification[ image::DynamicImage::height ](image: &image::DynamicImage) -> (r: u32)
    ensures
        r == size(*image).1,
;

/// `image::DynamicImage::into_rgba8`: the pixels of the image as eight-bit
/// colours with alpha, as raw bytes.
#[verifier::external_body]
fn into_rgba8(image: image::DynamicImage) -> (r: Vec<u8>)
    ensures
        r@ == pixels(image),
{
    image.into_rgba8().into_raw()
}

/// The size and the pixels of what `image::DynamicImage::resize` makes of an
/// image within `w` by `h`, with the triangle filter.
pub uninterp spec fn scaled(image: image::DynamicImage, w: u32, h: u32) -> ((u32, u32), Seq<u8>);

/// `image::DynamicImage::resize`, with the triangle filter: the image scaled to
/// the greatest size within `w` by `h` that keeps its proportions. The size is
/// within the bounds, and it and the colours depend on the image and the bounds
/// alone.
#[verifier::external_body]
fn resize(image: &image::DynamicImage, w: u32, h: u32) -> (r: image::DynamicImage)
    requires
        1 <= w,
        1 <= h,
        w <= size(*image).0 || h <= size(*image).1,
    ensures
        (size(r), pixels(r)) == scaled(*image, w, h),
        1 <= size(r).0 <= w,
        1 <= size(r).1 <= h,
{
    image.resize(w, h, image::imageops::FilterType::Triangle)
}

/// `image::ImageReader::decode`, on a reader of the bytes whose format was
/// guessed, and which goes by the extension of `path` where nothing can be
/// guessed: the image, or `None` where the reader gives an error. Nothing is
/// claimed of the image: which decoder reads the bytes also depends on what the
/// process has registered with the `image` crate. That no decoder panics on any
/// bytes is that crate's word.
#[verifier::external_body]
fn read_image(bytes: &[u8], path: &str) -> (r: Option<image::DynamicImage>) {
    let bytes = std::io::Cursor::new(bytes);
    let reader = match image::ImageFormat::from_path(path) {
        Ok(format) => image::ImageReader::with_format(bytes, format),
        Err(_) => image::ImageReader::new(bytes),
    };
    reader.with_guessed_format().ok().and_then(|reader| reader.decode().ok())
}

/// A decoded image: its size, and its pixels as blue, green, red and alpha.
pub struct Pixels {
    pub w: u32,
    pub h: u32,
    pub bgra: Vec<u8>,
}

/// Some pixels with red and blue changing places. What does not make a whole
/// pixel stays.
pub open spec fn swapped(rgba: Seq<u8>) -> Seq<u8> {
    Seq::new(
        rgba.len(),
        |i: int|
            if i - i % 4 + 3 >= rgba.len() {
                rgba[i]
            } else if i % 4 == 0 {
                rgba[i + 2]
            } else if i % 4 == 2 {
                rgba[i - 2]
            } else {
                rgba[i]
            },
    )
}

/// Makes red and blue change places in every pixel.
pub fn swap_red_and_blue(rgba: &mut Vec<u8>)
    ensures
        final(rgba)@ == swapped(old(rgba)@),
{
    let ghost before = rgba@;
    let n: usize = rgba.len();
    let mut i: usize = 0;
    while n - i >= 4
        invariant
            i <= n,
            i % 4 == 0,
            n == rgba@.len(),
            n == before.len(),
            forall|j: int| 0 <= j < i ==> #[trigger] rgba@[j] == swapped(before)[j],
            forall|j: int| i <= j < n ==> #[trigger] rgba@[j] == before[j],
        decreases n - i,
    {
        let red: u8 = rgba[i];
        let blue: u8 = rgba[i + 2];
        rgba.set(i, blue);
        rgba.set(i + 2, red);
        i = i + 4;
    }
    assert(rgba@ =~= swapped(before));
}

/// Where an image is too long on one side, the size to scale it to, which `fit`
/// gives from its width, its height and the longest edge that is kept.
pub fn target<F: Fn(u32, u32, u32) -> (u32, u32)>(w: u32, h: u32, max_edge: u32, fit: &F) -> (r:
    Option<(u32, u32)>)
    requires
        forall|w: u32, h: u32, m: u32| #[trigger] fit.requires((w, h, m)),
    ensures
        match r {
            Some(to) => (w > max_edge || h > max_edge) && fit.ensures((w, h, max_edge), to),
            None => w <= max_edge && h <= max_edge,
        },
{
    if w > max_edge || h > max_edge {
        Some(fit(w, h, max_edge))
    } else {
        None
    }
}

/// `p` is an image of some size, with some pixels.
pub open spec fn draws(p: Pixels, size: (u32, u32), rgba: Seq<u8>) -> bool {
    p.w == size.0 && p.h == size.1 && p.bgra@ == swapped(rgba)
}

/// What is drawn of what was read: nothing of nothing, and of an image that
/// is too long on one side what scaling it leaves.
pub open spec fn prepared<F: Fn(u32, u32, u32) -> (u32, u32)>(
    read: Option<image::DynamicImage>,
    max_edge: u32,
    fit: &F,
    r: Option<Pixels>,
) -> bool {
    match (read, r) {
        (None, None) => true,
        (Some(image), Some(p)) => {
            let (w, h) = size(image);
            &&& p.w <= max_edge && p.h <= max_edge
            &&& if w > max_edge || h > max_edge {
                exists|to: (u32, u32)| #[trigger]
                    fit.ensures((w, h, max_edge), to) && draws(
                        p,
                        scaled(image, to.0, to.1).0,
                        scaled(image, to.0, to.1).1,
                    )
            } else {
                draws(p, (w, h), pixels(image))
            }
        },
        _ => false,
    }
}

/// Downscales an image that was read, and hands back something that can be
/// drawn. Nothing is kept at more than `max_edge` on its longest side.
pub fn prepare<F: Fn(u32, u32, u32) -> (u32, u32)>(
    read: Option<image::DynamicImage>,
    max_edge: u32,
    fit: &F,
) -> (r: Option<Pixels>)
    requires
        forall|w: u32, h: u32, m: u32| #[trigger] fit.requires((w, h, m)),
        forall|w: u32, h: u32, to: (u32, u32)| #[trigger]
            fit.ensures((w, h, max_edge), to) ==> 1 <= to.0 <= max_edge && 1 <= to.1 <= max_edge,
    ensures
        prepared(read, max_edge, fit, r),
{
    let image = match read {
        Some(image) => image,
        None => {
            return None;
        },
    };
    let image = match target(image.width(), image.height(), max_edge, fit) {
        Some((w, h)) => resize(&image, w, h),
        None => image,
    };
    let w: u32 = image.width();
    let h: u32 = image.height();
    let mut rgba = into_rgba8(image);
    swap_red_and_blue(&mut rgba);
    Some(Pixels { w, h, bgra: rgba })
}

/// Decodes the image that the file at `path` holds, downscales it, and hands back
/// something that can be drawn; nothing if the bytes are no image.
pub fn decode<F: Fn(u32, u32, u32) -> (u32, u32)>(
    bytes: &Vec<u8>,
    path: &str,
    max_edge: u32,
    fit: &F,
) -> (r: Option<Pixels>)
    requires
        forall|w: u32, h: u32, m: u32| #[trigger] fit.requires((w, h, m)),
        forall|w: u32, h: u32, to: (u32, u32)| #[trigger]
            fit.ensures((w, h, max_edge), to) ==> 1 <= to.0 <= max_edge && 1 <= to.1 <= max_edge,
    ensures
        exists|read: Option<image::DynamicImage>| #[trigger] prepared(read, max_edge, fit, r),
{
    let read = read_image(bytes.as_slice(), path);
    prepare(read, max_edge, fit)
}

/// What a decoded image costs: four bytes to a pixel, over all its frames.
pub open spec fn bytes_needed(sizes: Seq<(u32, u32)>) -> nat
    decreases sizes.len(),
{
    if sizes.len() == 0 {
        0
    } else {
        bytes_needed(sizes.drop_last()) + sizes.last().0 as nat * sizes.last().1 as nat * 4
    }
}

/// What a decoded image costs, counting every frame that was kept.
pub fn bytes_of(sizes: &Vec<(u32, u32)>) -> (r: usize)
    requires
        bytes_needed(sizes@) <= usize::MAX,
    ensures
        r == bytes_needed(sizes@),
{
    let n: usize = sizes.len();
    let mut total: usize = 0;
    let mut i: usize = 0;
    assert(sizes@.take(0) =~= seq![]);
    assert(sizes@.take(n as int) =~= sizes@);
    while i < n
        invariant
            i <= n,
            n == sizes@.len(),
            sizes@.take(n as int) == sizes@,
            bytes_needed(sizes@) <= usize::MAX,
            total == bytes_needed(sizes@.take(i as int)),
        decreases n - i,
    {
        let (w, h) = sizes[i];
        assert(sizes@.take(i + 1).drop_last() =~= sizes@.take(i as int));
        proof {
            lemma_more(sizes@, i + 1);
            assert(0 <= w as int * h as int <= w as int * h as int * 4) by (nonlinear_arith);
        }
        total = total + w as usize * h as usize * 4;
        i = i + 1;
    }
    total
}

proof fn lemma_more(sizes: Seq<(u32, u32)>, i: int)
    requires
        0 <= i <= sizes.len(),
    ensures
        bytes_needed(sizes.take(i)) <= bytes_needed(sizes),
    decreases sizes.len(),
{
    if i < sizes.len() {
        lemma_more(sizes.drop_last(), i);
        assert(sizes.drop_last().take(i) =~= sizes.take(i));
    } else {
        assert(sizes.take(i) =~= sizes);
    }
}

/// Of every whole pixel red and blue change places, and green and alpha stay. Twice is
/// back to where it was.
pub proof fn red_and_blue_change_places(rgba: Seq<u8>, k: int)
    requires
        0 <= k,
        4 * k + 3 < rgba.len(),
    ensures
        swapped(rgba).len() == rgba.len(),
        swapped(rgba)[4 * k] == rgba[4 * k + 2],
        swapped(rgba)[4 * k + 1] == rgba[4 * k + 1],
        swapped(rgba)[4 * k + 2] == rgba[4 * k],
        swapped(rgba)[4 * k + 3] == rgba[4 * k + 3],
        swapped(swapped(rgba)) == rgba,
{
    let once = swapped(rgba);
    let twice = swapped(once);
    assert forall|i: int| 0 <= i < rgba.len() implies twice[i] == rgba[i] by {}
    assert(twice =~= rgba);
}

/// A frame costs four bytes to a pixel, and all of them together what each costs.
pub proof fn every_frame_costs_its_pixels(sizes: Seq<(u32, u32)>, w: u32, h: u32)
    ensures
        bytes_needed(sizes.push((w, h))) == bytes_needed(sizes) + 4 * (w as nat * h as nat),
        bytes_needed(seq![]) == 0,
{
    assert(sizes.push((w, h)).drop_last() =~= sizes);
    assert(w as nat * h as nat * 4 == 4 * (w as nat * h as nat));
}

} // verus!
