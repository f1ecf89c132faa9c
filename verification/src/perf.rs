//! Frame-cost figures: what the last frames cost, smoothed.

use vstd::prelude::*;
use crate::text;

verus! {

/// A time in thousandths of a microsecond after one more measurement of `us`
/// microseconds: the first counts in full, each later one for a fifth.
pub open spec fn smoothed(prev: u64, us: u64) -> int {
    if prev == 0 {
        us * 1000
    } else {
        (prev * 800 + us * 1000 * 200) as int / 1000
    }
}

/// A measurement that the smoothing has room for.
pub open spec fn in_range(prev: u64, us: u64) -> bool {
    prev * 800 + us * 1000 * 200 <= u64::MAX
}

fn smooth(prev: u64, us: u64) -> (r: u64)
    requires
        in_range(prev, us),
    ensures
        r == smoothed(prev, us),
{
    if prev == 0 {
        us * 1000
    } else {
        (prev * 800 + us * 1000 * 200) / 1000
    }
}

/// What the last frames cost. Times are in thousandths of a microsecond.
#[derive(Clone, Copy, Debug, PartialEq, Eq)]
pub struct Meter {
    pub paint: u64,
    pub build: u64,
    pub paths: u64,
    pub drawn: u64,
    pub total: u64,
}

impl Meter {
    /// Nothing measured yet.
    pub fn new() -> (r: Meter)
        ensures
            r == (Meter { paint: 0, build: 0, paths: 0, drawn: 0, total: 0 }),
    {
        Meter { paint: 0, build: 0, paths: 0, drawn: 0, total: 0 }
    }

    /// A paint pass took `us` microseconds. `drawn` and `total` are the nodes
    /// painted and the nodes in the map.
    pub fn record_paint(&mut self, us: u64, paths: u64, drawn: u64, total: u64)
        requires
            in_range(old(self).paint, us),
        ensures
            final(self).paint == smoothed(old(self).paint, us),
            final(self).build == old(self).build,
            final(self).paths == paths,
            final(self).drawn == drawn,
            final(self).total == total,
    {
        self.paint = smooth(self.paint, us);
        self.paths = paths;
        self.drawn = drawn;
        self.total = total;
    }

    /// Turning the graph into a paint list took `us` microseconds.
    pub fn record_build(&mut self, us: u64)
        requires
            in_range(old(self).build, us),
        ensures
            final(self).build == smoothed(old(self).build, us),
            final(self).paint == old(self).paint,
            final(self).paths == old(self).paths,
            final(self).drawn == old(self).drawn,
            final(self).total == old(self).total,
    {
        self.build = smooth(self.build, us);
    }

    /// One line for the status bar, e.g.
    /// `paint 0.21ms · build 0.02ms · 104 paths · 34/2000`, or nothing when
    /// measuring is off. `ms` writes a time in milliseconds.
    pub fn readout<F: Fn(u64) -> String>(&self, on: bool, ms: &F) -> (r: Option<String>)
        requires
            forall|t: u64| #[trigger] ms.requires((t,)),
        ensures
            r is Some <==> on,
            on ==> exists|paint: String, build: String|
                #![trigger ms.ensures((self.paint,), paint), ms.ensures((self.build,), build)]
                ms.ensures((self.paint,), paint) && ms.ensures((self.build,), build) && r->0@
                    == line(*self, paint@, build@),
    {
        if !on {
            return None;
        }
        let paint = ms(self.paint);
        let build = ms(self.build);
        let mut out = String::new();
        out.push_str("paint ");
        out.push_str(paint.as_str());
        out.push_str("ms · build ");
        out.push_str(build.as_str());
        out.push_str("ms · ");
        out.push_str(text::decimal(self.paths).as_str());
        out.push_str(" paths · ");
        out.push_str(text::decimal(self.drawn).as_str());
        out.push_str("/");
        out.push_str(text::decimal(self.total).as_str());
        assert(out@ =~= line(*self, paint@, build@));
        Some(out)
    }
}

/// The status line of some figures, with the two times written out.
pub open spec fn line(m: Meter, paint: Seq<char>, build: Seq<char>) -> Seq<char> {
    "paint "@ + paint + "ms · build "@ + build + "ms · "@ + text::decimal_chars(m.paths as nat)
        + " paths · "@ + text::decimal_chars(m.drawn as nat) + "/"@ + text::decimal_chars(
        m.total as nat,
    )
}

/// Smoothing stays between what was and what is measured.
pub proof fn smoothing_stays_between(prev: u64, us: u64)
    requires
        prev > 0,
    ensures
        prev <= us * 1000 ==> prev <= smoothed(prev, us) <= us * 1000,
        us * 1000 <= prev ==> us * 1000 <= smoothed(prev, us) <= prev,
{
}

/// A time that is smoothed goes a fifth of the way to what was measured: it stays between
/// the two, and what is measured again and again stays as it is.
pub proof fn a_time_goes_a_fifth_of_the_way(prev: u64, us: u64)
    ensures
        smoothed(0, us) == us * 1000,
        prev > 0 ==> smoothed(prev, us) == (4 * prev + us * 1000) as int / 5,
        prev > 0 && prev <= us * 1000 ==> prev <= smoothed(prev, us) <= us * 1000,
        prev > 0 && us * 1000 <= prev ==> us * 1000 <= smoothed(prev, us) <= prev,
{
}

} // verus!
