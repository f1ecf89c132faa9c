//! Which copy of the app this is: the one that holds real maps, or the one being
//! worked on. They do not share a data directory.

use vstd::prelude::*;
use crate::{paths, text};

verus! {

/// A switch in the environment that is on: set, not empty, and not `0`.
pub open spec fn switched_on(value: Option<Seq<char>>) -> bool {
    match value {
        Some(v) => v.len() > 0 && v != "0"@,
        None => false,
    }
}

/// A text that ends in `-dev`.
pub open spec fn ends_in_dev(name: Seq<char>) -> bool {
    name.len() >= 4 && name.skip(name.len() - 4) == "-dev"@
}

/// The development build: the environment says so, or the name of the executable.
pub open spec fn is_dev_build(switch: Option<Seq<char>>, exe: Option<Seq<char>>) -> bool {
    switched_on(switch) || match exe {
        Some(path) => match paths::file_name(path) {
            Some(name) => ends_in_dev(name),
            None => false,
        },
        None => false,
    }
}

/// The characters of a text that may be absent.
pub open spec fn chars_of(s: Option<&str>) -> Option<Seq<char>> {
    match s {
        Some(v) => Some(v@),
        None => None,
    }
}

/// Whether a switch in the environment is on.
pub fn switch_is_on(value: Option<&str>) -> (r: bool)
    ensures
        r == switched_on(chars_of(value)),
{
    match value {
        Some(v) => {
            let chars = text::chars(v);
            chars.len() > 0 && !text::spells(&chars, "0")
        },
        None => false,
    }
}

/// Whether this is the development build, which keeps its maps, its recents list
/// and its keymap beside the real ones rather than in them. `switch` is the
/// environment's word on it, and `exe` the path of the running executable.
pub fn is_dev(switch: Option<&str>, exe: Option<&str>) -> (r: bool)
    ensures
        r == is_dev_build(chars_of(switch), chars_of(exe)),
{
    if switch_is_on(switch) {
        return true;
    }
    match exe {
        Some(path) => {
            let (file, _) = paths::names(path);
            match file {
                Some(name) => {
                    let chars = text::chars(name.as_str());
                    proof {
                        reveal_strlit("-dev");
                        if chars@.len() >= 4 {
                            let tail = chars@.skip(chars@.len() - 4);
                            if tail[0] == '-' && tail[1] == 'd' && tail[2] == 'e' && tail[3] == 'v' {
                                assert(tail =~= "-dev"@);
                            }
                        }
                    }
                    let n: usize = chars.len();
                    n >= 4 && chars[n - 4] == '-' && chars[n - 3] == 'd' && chars[n - 2] == 'e'
                        && chars[n - 1] == 'v'
                },
                None => false,
            }
        },
        None => false,
    }
}

/// What the window's title bar says, so the two copies are told apart on screen.
pub fn app_title(dev: bool) -> (r: &'static str)
    ensures
        r@ == if dev {
            "mind67 Dev"@
        } else {
            "mind67"@
        },
{
    if dev {
        "mind67 Dev"
    } else {
        "mind67"
    }
}

/// The name of the directory that everything persisted hangs off.
pub open spec fn folder_of(dev: bool) -> Seq<char> {
    if dev {
        "jotmind-dev"@
    } else {
        "jotmind"@
    }
}

/// The name of the directory that everything persisted hangs off.
pub fn folder(dev: bool) -> (r: &'static str)
    ensures
        r@ == folder_of(dev),
{
    if dev {
        "jotmind-dev"
    } else {
        "jotmind"
    }
}

/// The two copies keep their files apart.
pub proof fn the_copies_are_apart()
    ensures
        folder_of(true) != folder_of(false),
{
    reveal_strlit("jotmind-dev");
    reveal_strlit("jotmind");
    assert("jotmind-dev"@.len() != "jotmind"@.len());
}

/// The development build is told by its switch, or by a name that ends as that of the
/// development build does. A switch that is empty or zero is off.
pub proof fn a_name_tells_the_build(stem: Seq<char>, name: Seq<char>, switch: Seq<char>)
    ensures
        ends_in_dev(stem + "-dev"@),
        ends_in_dev(name) ==> exists|s: Seq<char>| name == #[trigger] (s + "-dev"@),
        switch.len() > 0 && switch != "0"@ ==> is_dev_build(Some(switch), None),
        !is_dev_build(Some("0"@), None),
        !is_dev_build(Some(seq![]), None),
        !is_dev_build(None, None),
{
    reveal_strlit("-dev");
    reveal_strlit("0");
    let whole = stem + "-dev"@;
    assert(whole.skip(whole.len() - 4) =~= "-dev"@);
    if ends_in_dev(name) {
        let s = name.take(name.len() - 4);
        assert(name =~= s + name.skip(name.len() - 4));
        assert(name == s + "-dev"@);
    }
}

} // verus!
