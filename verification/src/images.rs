//! The image store: files named by a digest of their own bytes.
//!
//! An image lives in `<data dir>/images/`, and a node holds its name. Dropping
//! the same photo twice makes one file, a file is never rewritten, and nothing
//! has to decide what an image is called.

use vstd::prelude::*;
use crate::{hash, paths, text};

verus! {

/// Where the store sits, relative to the data directory.
pub const DIR_NAME: &'static str = "images";

/// A newly stored image: its name in the store, and the pixel size it turned out
/// to have.
#[derive(Debug, PartialEq, Eq)]
pub struct Import {
    pub name: String,
    pub w: u32,
    pub h: u32,
}

/// Where the store of a data directory is.
pub open spec fn store_of(dir: Seq<char>) -> Seq<char> {
    paths::joined(dir, DIR_NAME@)
}

/// Where an image of a data directory is.
pub open spec fn image_of(dir: Seq<char>, name: Seq<char>) -> Seq<char> {
    paths::joined(store_of(dir), name)
}

/// `<dir>/images`
pub fn store_dir(dir: &str) -> (r: String)
    ensures
        r@ == store_of(dir@),
{
    paths::join(dir, DIR_NAME)
}

/// The path of a stored image.
pub fn path(dir: &str, name: &str) -> (r: String)
    ensures
        r@ == image_of(dir@, name@),
{
    let store = store_dir(dir);
    paths::join(store.as_str(), name)
}

/// An extension of a format that is stored as it arrives. Everything else that
/// the system can read is made into a PNG on the way in.
pub open spec fn native(ext: Seq<char>) -> bool {
    ext == "png"@ || ext == "jpg"@ || ext == "jpeg"@ || ext == "gif"@ || ext == "webp"@ || ext
        == "bmp"@ || ext == "tif"@ || ext == "tiff"@ || ext == "ico"@ || ext == "avif"@ || ext
        == "qoi"@
}

/// An extension of a format that a drop or the pasteboard may bring.
pub open spec fn accepted(ext: Seq<char>) -> bool {
    native(ext) || ext == "heic"@ || ext == "heif"@ || ext == "pdf"@ || ext == "psd"@ || ext
        == "tga"@
}

/// An ASCII letter in lower case; any other character as it is.
pub open spec fn lower(c: char) -> char {
    if 'A' <= c <= 'Z' {
        (c as u32 + 32) as char
    } else {
        c
    }
}

/// Some characters with their ASCII letters in lower case.
pub open spec fn lower_all(chars: Seq<char>) -> Seq<char> {
    chars.map_values(|c: char| lower(c))
}

/// A file whose name ends in an extension that is accepted.
pub open spec fn droppable(path: Seq<char>) -> bool {
    match paths::file_name(path) {
        Some(name) => match paths::extension(name) {
            Some(ext) => accepted(lower_all(ext)),
            None => false,
        },
        None => false,
    }
}

fn is_native(ext: &Vec<char>) -> (r: bool)
    ensures
        r == native(ext@),
{
    text::spells(ext, "png") || text::spells(ext, "jpg") || text::spells(ext, "jpeg")
        || text::spells(ext, "gif") || text::spells(ext, "webp") || text::spells(ext, "bmp")
        || text::spells(ext, "tif") || text::spells(ext, "tiff") || text::spells(ext, "ico")
        || text::spells(ext, "avif") || text::spells(ext, "qoi")
}

/// Whether a dropped file is worth trying to import.
pub fn is_image_file(path: &str) -> (r: bool)
    ensures
        r == droppable(path@),
{
    let (file, _) = paths::names(path);
    let name = match file {
        Some(name) => text::chars(name.as_str()),
        None => {
            return false;
        },
    };
    let ext = match paths::extension_of(&name) {
        Some(ext) => ext,
        None => {
            return false;
        },
    };
    let n: usize = ext.len();
    let mut low: Vec<char> = Vec::new();
    let mut i: usize = 0;
    while i < n
        invariant
            i <= n,
            n == ext@.len(),
            low@ == lower_all(ext@).take(i as int),
        decreases n - i,
    {
        let c: char = ext[i];
        let l: char = if 'A' <= c && c <= 'Z' {
            (c as u8 + 32) as char
        } else {
            c
        };
        low.push(l);
        assert(low@ =~= lower_all(ext@).take(i + 1));
        i = i + 1;
    }
    assert(low@ =~= lower_all(ext@));
    is_native(&low) || text::spells(&low, "heic") || text::spells(&low, "heif") || text::spells(
        &low,
        "pdf",
    ) || text::spells(&low, "psd") || text::spells(&low, "tga")
}

/// The format that the first bytes of a file announce, told by the first of its
/// extensions.
pub uninterp spec fn announced(bytes: Seq<u8>) -> Option<Seq<char>>;

/// `image::guess_format`: the format that the bytes begin as, or an error when
/// they begin as none that is known. It goes by a fixed table of beginnings, so
/// the bytes alone decide. The format is told by the first entry of its
/// `extensions_str`, which no two formats share.
#[verifier::external_body]
fn guess_format(bytes: &[u8]) -> (r: Option<String>)
    ensures
        match r {
            Some(ext) => announced(bytes@) == Some(ext@),
            None => announced(bytes@) is None,
        },
{
    match image::guess_format(bytes) {
        Ok(format) => format.extensions_str().first().map(|ext| ext.to_string()),
        Err(_) => None,
    }
}

/// The extension to store some bytes under, if they can be stored as they are.
pub open spec fn sniffed(bytes: Seq<u8>) -> Option<Seq<char>> {
    match announced(bytes) {
        Some(ext) => if native(ext) {
            Some(ext)
        } else {
            None
        },
        None => None,
    }
}

/// The extension to store under, or `None` when the bytes cannot be stored as
/// they are. Read off the bytes, never off the name a file arrived with.
pub fn sniff(bytes: &Vec<u8>) -> (r: Option<String>)
    ensures
        match r {
            Some(ext) => sniffed(bytes@) == Some(ext@),
            None => sniffed(bytes@) is None,
        },
{
    match guess_format(bytes.as_slice()) {
        Some(ext) => {
            let chars = text::chars(ext.as_str());
            if is_native(&chars) {
                Some(ext)
            } else {
                None
            }
        },
        None => None,
    }
}

/// `image::ImageReader::into_dimensions`, on a reader of the bytes whose format
/// was guessed: the pixel size in the header, or `None` where the reader gives an
/// error. Nothing is claimed of the size: which decoder reads the bytes also
/// depends on what the process has registered with the `image` crate. That no
/// decoder panics on any bytes is that crate's word.
#[verifier::external_body]
fn read_dimensions(bytes: &[u8]) -> (r: Option<(u32, u32)>) {
    image::ImageReader::new(std::io::Cursor::new(bytes))
        .with_guessed_format()
        .ok()
        .and_then(|reader| reader.into_dimensions().ok())
}

/// The name of some bytes in the store: the first eight bytes of their digest in
/// hexadecimal, a dot, and the extension.
pub open spec fn store_name(bytes: Seq<u8>, ext: Seq<char>) -> Seq<char> {
    hash::hex_chars(hash::sha256(bytes).take(8)) + seq!['.'] + ext
}

/// The first eight bytes of the digest of some bytes, in hexadecimal.
pub fn hash_hex(bytes: &Vec<u8>) -> (r: String)
    ensures
        r@ == hash::hex_chars(hash::sha256(bytes@).take(8)),
        r@.len() == 16,
{
    let r = hash::digest_hex(bytes.as_slice(), 8);
    proof {
        hash::lemma_hex(hash::sha256(bytes@).take(8));
    }
    r
}

/// What is stored of some bytes whose size has been read: nothing if it could not
/// be read.
pub fn describe(bytes: &Vec<u8>, ext: &str, size: Option<(u32, u32)>) -> (r: Option<Import>)
    ensures
        match size {
            Some(wh) => r is Some && r->0.name@ == store_name(bytes@, ext@) && r->0.w == wh.0
                && r->0.h == wh.1,
            None => r is None,
        },
{
    match size {
        Some((w, h)) => {
            let mut name = hash_hex(bytes);
            name.push('.');
            name.push_str(ext);
            assert(name@ =~= store_name(bytes@, ext@));
            Some(Import { name, w, h })
        },
        None => None,
    }
}

/// What to do with bytes that are to be imported.
#[derive(Debug, PartialEq, Eq)]
pub enum Plan {
    /// Write them, under this name, unless a file of that name is there.
    Keep(Import),
    /// Have the system make a PNG of them first.
    Convert,
    /// Give up: they begin like an image and are none.
    Refuse,
}

/// What to do with bytes that are to be imported. Which size is read, and whether
/// one is read, is up to the decoder; see [`describe`] for what follows from it.
pub fn plan(bytes: &Vec<u8>) -> (r: Plan)
    ensures
        r is Convert <==> sniffed(bytes@) is None,
        r matches Plan::Keep(import) ==> import.name@ == store_name(bytes@, sniffed(bytes@)->0),
{
    match sniff(bytes) {
        None => Plan::Convert,
        Some(ext) => match describe(bytes, ext.as_str(), read_dimensions(bytes.as_slice())) {
            Some(import) => Plan::Keep(import),
            None => Plan::Refuse,
        },
    }
}

/// What is stored of bytes that the system made: they count as a PNG, whatever
/// they begin as. See [`describe`] for what follows from the size that is read.
pub fn plan_converted(bytes: &Vec<u8>) -> (r: Option<Import>)
    ensures
        r matches Some(import) ==> import.name@ == store_name(bytes@, "png"@),
{
    describe(bytes, "png", read_dimensions(bytes.as_slice()))
}

/// The store sits inside the data directory, and an image inside the store, for
/// every name that the store gives.
pub proof fn images_stay_in_the_store(dir: Seq<char>, bytes: Seq<u8>, ext: Seq<char>)
    requires
        dir.len() > 0,
        dir.last() != '/',
    ensures
        store_of(dir) == dir + seq!['/'] + DIR_NAME@,
        image_of(dir, store_name(bytes, ext)) == dir + seq!['/'] + DIR_NAME@ + seq!['/']
            + store_name(bytes, ext),
{
    reveal_strlit("images");
    hash::lemma_hex(hash::sha256(bytes).take(8));
    let hex = hash::hex_chars(hash::sha256(bytes).take(8));
    let name = store_name(bytes, ext);
    assert(name[0] == if hex.len() > 0 {
        hex[0]
    } else {
        '.'
    });
}

/// An image that was stored as it arrived can be dropped again: the extension
/// that the store gives it is one of those that a drop may bring.
pub proof fn stored_images_are_droppable(ext: Seq<char>)
    requires
        native(ext),
    ensures
        accepted(ext),
        lower_all(ext) == ext,
{
    reveal_strlit("png");
    reveal_strlit("jpg");
    reveal_strlit("jpeg");
    reveal_strlit("gif");
    reveal_strlit("webp");
    reveal_strlit("bmp");
    reveal_strlit("tif");
    reveal_strlit("tiff");
    reveal_strlit("ico");
    reveal_strlit("avif");
    reveal_strlit("qoi");
    assert(lower_all(ext) =~= ext);
}

/// A file may be dropped if its extension is one of those that are accepted, whatever the
/// case of its letters and wherever it is.
pub proof fn a_drop_is_told_by_its_extension(
    dir: Seq<char>,
    name: Seq<char>,
    ext: Seq<char>,
    other: Seq<char>,
)
    requires
        name.len() > 0,
        !ext.contains('.'),
        !other.contains('.'),
        paths::plain_name(name + seq!['.'] + ext),
        paths::plain_name(name + seq!['.'] + other),
    ensures
        droppable(paths::joined(dir, name + seq!['.'] + ext)) <==> accepted(lower_all(ext)),
        lower_all(ext) == lower_all(other) ==> (droppable(
            paths::joined(dir, name + seq!['.'] + ext),
        ) <==> droppable(paths::joined(dir, name + seq!['.'] + other))),
{
    let a = name + seq!['.'] + ext;
    let b = name + seq!['.'] + other;
    paths::joining_puts_a_name_into_a_folder(dir, a, a);
    paths::joining_puts_a_name_into_a_folder(dir, b, b);
    paths::an_extension_follows_the_last_dot(name, ext);
    paths::an_extension_follows_the_last_dot(name, other);
}

/// Every format that is stored as it arrives is accepted, and so are those that are made
/// into one of them.
pub proof fn the_usual_formats_are_accepted(ext: Seq<char>)
    ensures
        native(ext) ==> accepted(ext),
        ext == "png"@ || ext == "jpg"@ || ext == "jpeg"@ || ext == "gif"@ || ext == "webp"@
            ==> native(ext),
        ext == "heic"@ || ext == "heif"@ || ext == "pdf"@ || ext == "psd"@ || ext == "tga"@
            ==> accepted(ext),
{
}

/// An image is called after its bytes alone: sixteen digits of their digest, two to a byte,
/// then a dot and the extension.
pub proof fn an_image_is_called_after_its_bytes(bytes: Seq<u8>, ext: Seq<char>, other: Seq<char>)
    requires
        hash::sha256(bytes).len() == 32,
    ensures
        store_name(bytes, ext).len() == 17 + ext.len(),
        store_name(bytes, ext)[16] == '.',
        store_name(bytes, ext).skip(17) == ext,
        store_name(bytes, ext).take(16) == hash::hex_chars(hash::sha256(bytes)).take(16),
        store_name(bytes, ext).take(16) == store_name(bytes, other).take(16),
{
    let d = hash::sha256(bytes);
    hash::lemma_hex(d);
    hash::lemma_hex(d.take(8));
    let a = hash::hex_chars(d.take(8));
    assert forall|i: int| 0 <= i < 8 implies a[2 * i] == hash::hex_chars(d)[2 * i] && #[trigger] a[2 * i
        + 1] == hash::hex_chars(d)[2 * i + 1] by {
        hash::a_byte_is_two_digits(d, i);
        hash::a_byte_is_two_digits(d.take(8), i);
    }
    assert forall|k: int| 0 <= k < 16 implies #[trigger] a[k] == hash::hex_chars(d)[k] by {
        let i = k / 2;
        assert(a[2 * i + 1] == hash::hex_chars(d)[2 * i + 1]);
        assert(k == 2 * i || k == 2 * i + 1);
    }
    assert(store_name(bytes, ext).take(16) =~= hash::hex_chars(d).take(16));
    assert(store_name(bytes, other).take(16) =~= hash::hex_chars(d).take(16));
    assert(store_name(bytes, ext).skip(17) =~= ext);
}

} // verus!
