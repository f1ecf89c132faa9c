//! Which files need a bookmark to be opened again, and where it is kept.

use vstd::prelude::*;
use vstd::utf8::*;
use crate::{dev, hash, paths, text};

verus! {

/// Where the system lets the app keep its own files.
pub open spec fn container_of(home: Seq<char>) -> Seq<char> {
    paths::joined(home, "Library/Application Support"@)
}

/// Where the bookmark of a file is kept: under the digest of its path.
pub open spec fn location_of(home: Seq<char>, dev: bool, path: Seq<char>) -> Seq<char> {
    paths::joined(
        paths::joined(paths::joined(container_of(home), dev::folder_of(dev)), "bookmarks"@),
        hash::hex_chars(hash::sha256(encode_utf8(path)).take(32)) + ".bookmark"@,
    )
}

/// Where the bookmark of a file is kept.
pub fn location(home: &str, dev: bool, path: &str) -> (r: String)
    ensures
        r@ == location_of(home@, dev, path@),
{
    let container = paths::join(home, "Library/Application Support");
    let mine = paths::join(container.as_str(), dev::folder(dev));
    let dir = paths::join(mine.as_str(), "bookmarks");
    proof {
        text::lemma_str(path);
        encode_utf8_decode_utf8(path@);
    }
    let mut name = hash::digest_hex(path.as_bytes(), 32);
    name.push_str(".bookmark");
    paths::join(dir.as_str(), name.as_str())
}

/// Whether a file needs a bookmark to be opened again. The app's own files need
/// none.
pub fn needs_bookmark(home: &str, path: &str) -> (r: bool)
    ensures
        r == !paths::under(path@, container_of(home@)),
{
    let container = paths::join(home, "Library/Application Support");
    !paths::is_under(path, container.as_str())
}

} // verus!
