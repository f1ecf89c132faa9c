//! What the document of a drawing holds, read back from its text.

use vstd::prelude::*;
use crate::convert::escape;
use crate::export_svg;
use crate::export_svg::{Chip, Drawing, DrawnEdge, DrawnLabel, Extent, Frame, Row, Stroke};
use crate::graph::model::{GraphModel, NodeModel};
use crate::ids;
use crate::text;

verus! {

/// A text cut at its quotes: the names and the values of its attributes in turn,
/// and what is left after the last.
pub open spec fn quoted(s: Seq<char>) -> Seq<Seq<char>>
    decreases s.len(),
{
    if !s.contains('"') {
        seq![s]
    } else {
        let k = s.index_of_first('"')->0;
        if 0 <= k < s.len() {
            seq![s.take(k)] + quoted(s.skip(k + 1))
        } else {
            seq![]
        }
    }
}

/// A part without quotes, and what comes after the quote that ends it.
proof fn lemma_part(a: Seq<char>, b: Seq<char>)
    requires
        !a.contains('"'),
    ensures
        quoted(a + (seq!['"'] + b)) == seq![a] + quoted(b),
        quoted(a) == seq![a],
{
    let s = a + (seq!['"'] + b);
    let k = a.len() as int;
    assert(s[k] == '"');
    assert(s.contains('"'));
    s.index_of_first_ensures('"');
    let m = s.index_of_first('"')->0;
    if m < k {
        assert(a[m] == s[m]);
        assert(a.contains('"'));
    }
    assert(m == k);
    assert(s.take(k) =~= a);
    assert(s.skip(k + 1) =~= b);
}

proof fn lemma_some_part(a: Seq<char>)
    ensures
        quoted(a).len() > 0,
    decreases a.len(),
{
    if a.contains('"') {
        a.index_of_first_ensures('"');
        lemma_some_part(a.skip(a.index_of_first('"')->0 + 1));
    }
}

/// Two texts in a row, cut at their quotes.
proof fn lemma_join(a: Seq<char>, b: Seq<char>)
    ensures
        quoted(a).len() > 0,
        quoted(b).len() > 0,
        quoted(a + b) == quoted(a).drop_last() + seq![quoted(a).last() + quoted(b)[0]] + quoted(
            b,
        ).skip(1),
    decreases a.len() + b.len(),
{
    lemma_some_part(a);
    lemma_some_part(b);
    let q = seq!['"'];
    if a.contains('"') {
        a.index_of_first_ensures('"');
        let k = a.index_of_first('"')->0;
        let head = a.take(k);
        let rest = a.skip(k + 1);
        assert(!head.contains('"'));
        assert(a =~= head + (q + rest));
        assert(a + b =~= head + (q + (rest + b)));
        lemma_join(rest, b);
        lemma_part(head, rest + b);
        lemma_part(head, rest);
        assert(quoted(a + b) =~= quoted(a).drop_last() + seq![quoted(a).last() + quoted(b)[0]]
            + quoted(b).skip(1));
    } else if b.contains('"') {
        b.index_of_first_ensures('"');
        let k = b.index_of_first('"')->0;
        let head = b.take(k);
        let rest = b.skip(k + 1);
        assert(!head.contains('"'));
        assert(b =~= head + (q + rest));
        assert(a + b =~= (a + head) + (q + rest));
        assert(!(a + head).contains('"')) by {
            if (a + head).contains('"') {
                let i = choose|i: int| 0 <= i < (a + head).len() && (a + head)[i] == '"';
                if i < a.len() {
                    assert(a[i] == '"');
                } else {
                    assert(head[i - a.len()] == '"');
                }
            }
        }
        lemma_part(a + head, rest);
        lemma_part(head, rest);
        assert(quoted(a + b) =~= quoted(a).drop_last() + seq![quoted(a).last() + quoted(b)[0]]
            + quoted(b).skip(1));
    } else {
        assert(!(a + b).contains('"')) by {
            if (a + b).contains('"') {
                let i = choose|i: int| 0 <= i < (a + b).len() && (a + b)[i] == '"';
                if i < a.len() {
                    assert(a[i] == '"');
                } else {
                    assert(b[i - a.len()] == '"');
                }
            }
        }
        assert(quoted(a + b) =~= quoted(a).drop_last() + seq![quoted(a).last() + quoted(b)[0]]
            + quoted(b).skip(1));
    }
}

/// Something that can stand between quotes.
pub open spec fn bare(s: Seq<char>) -> bool {
    !s.contains('"')
}

/// What begins with a name that a quote ends.
proof fn lemma_first(lit: Seq<char>, name: Seq<char>)
    requires
        bare(name),
        lit == name + seq!['"'],
    ensures
        quoted(lit) == seq![name, seq![]],
{
    assert(lit =~= name + (seq!['"'] + Seq::<char>::empty()));
    lemma_part(name, seq![]);
    lemma_part(seq![], seq![]);
    assert(quoted(lit) =~= seq![name, seq![]]);
}

/// A value, and the name of the next.
proof fn lemma_value(
    t: Seq<char>,
    parts: Seq<Seq<char>>,
    value: Seq<char>,
    lit: Seq<char>,
    name: Seq<char>,
)
    requires
        quoted(t) == parts.push(seq![]),
        bare(value),
        bare(name),
        lit == seq!['"'] + name + seq!['"'],
    ensures
        quoted(t + value + lit) == parts.push(value).push(name).push(seq![]),
{
    let q = seq!['"'];
    let none = Seq::<char>::empty();
    assert(lit =~= none + (q + (name + (q + none))));
    lemma_part(none, name + (q + none));
    lemma_part(name, none);
    lemma_part(none, none);
    assert(quoted(lit) =~= seq![none, name, none]);
    lemma_part(value, none);
    lemma_join(t, value);
    assert(none + value =~= value);
    assert(quoted(t + value) =~= parts.push(value));
    lemma_join(t + value, lit);
    assert(value + none =~= value);
    assert(quoted(t + value + lit) =~= parts.push(value).push(name).push(none));
}

/// The last value, and what is left.
proof fn lemma_last(
    t: Seq<char>,
    parts: Seq<Seq<char>>,
    value: Seq<char>,
    lit: Seq<char>,
    left: Seq<char>,
)
    requires
        quoted(t) == parts.push(seq![]),
        bare(value),
        bare(left),
        lit == seq!['"'] + left,
    ensures
        quoted(t + value + lit) == parts.push(value).push(left),
{
    let q = seq!['"'];
    let none = Seq::<char>::empty();
    assert(lit =~= none + (q + left));
    lemma_part(none, left);
    lemma_part(left, none);
    lemma_part(value, none);
    lemma_join(t, value);
    assert(none + value =~= value);
    assert(quoted(t + value) =~= parts.push(value));
    lemma_join(t + value, lit);
    assert(value + none =~= value);
    assert(quoted(t + value + lit) =~= parts.push(value).push(left));
}

proof fn lemma_line_names()
    ensures
        bare("  <line x1="@),
        bare(" y1="@),
        bare(" x2="@),
        bare(" y2="@),
        bare(" stroke="@),
        bare("#555"@),
        bare(" stroke-width="@),
        bare("1"@),
        bare("/>\n"@),
        "  <line x1=\""@ == "  <line x1="@ + seq!['"'],
        "\" y1=\""@ == seq!['"'] + " y1="@ + seq!['"'],
        "\" x2=\""@ == seq!['"'] + " x2="@ + seq!['"'],
        "\" y2=\""@ == seq!['"'] + " y2="@ + seq!['"'],
        "\" stroke=\"#555\" stroke-width=\"1\"/>\n"@ == seq!['"'] + " stroke="@ + seq!['"'] + "#555"@
            + (seq!['"'] + " stroke-width="@ + seq!['"']) + "1"@ + (seq!['"'] + "/>\n"@),
{
    reveal_strlit("  <line x1=\"");
    reveal_strlit("\" y1=\"");
    reveal_strlit("\" x2=\"");
    reveal_strlit("\" y2=\"");
    reveal_strlit("\" stroke=\"#555\" stroke-width=\"1\"/>\n");
    reveal_strlit("  <line x1=");
    reveal_strlit(" y1=");
    reveal_strlit(" x2=");
    reveal_strlit(" y2=");
    reveal_strlit(" stroke=");
    reveal_strlit("#555");
    reveal_strlit(" stroke-width=");
    reveal_strlit("1");
    reveal_strlit("/>\n");
}

/// The four numbers of a line are read back from it, each under its name, with the
/// colour and the width that every line has.
pub proof fn a_line_reads_back(s: Stroke)
    requires
        bare(s.x1@),
        bare(s.y1@),
        bare(s.x2@),
        bare(s.y2@),
    ensures
        quoted(export_svg::stroke_text(s)) == seq![
            "  <line x1="@,
            s.x1@,
            " y1="@,
            s.y1@,
            " x2="@,
            s.x2@,
            " y2="@,
            s.y2@,
            " stroke="@,
            "#555"@,
            " stroke-width="@,
            "1"@,
            "/>\n"@,
        ],
{
    lemma_line_names();
    let q = seq!['"'];
    let t1 = "  <line x1=\""@;
    let p1 = seq!["  <line x1="@];
    lemma_first(t1, "  <line x1="@);
    assert(quoted(t1) =~= p1.push(seq![]));
    let t2 = t1 + s.x1@ + "\" y1=\""@;
    let p2 = p1.push(s.x1@).push(" y1="@);
    lemma_value(t1, p1, s.x1@, "\" y1=\""@, " y1="@);
    let t3 = t2 + s.y1@ + "\" x2=\""@;
    let p3 = p2.push(s.y1@).push(" x2="@);
    lemma_value(t2, p2, s.y1@, "\" x2=\""@, " x2="@);
    let t4 = t3 + s.x2@ + "\" y2=\""@;
    let p4 = p3.push(s.x2@).push(" y2="@);
    lemma_value(t3, p3, s.x2@, "\" y2=\""@, " y2="@);
    let l5 = q + " stroke="@ + q;
    let t5 = t4 + s.y2@ + l5;
    let p5 = p4.push(s.y2@).push(" stroke="@);
    lemma_value(t4, p4, s.y2@, l5, " stroke="@);
    let l6 = q + " stroke-width="@ + q;
    let t6 = t5 + "#555"@ + l6;
    let p6 = p5.push("#555"@).push(" stroke-width="@);
    lemma_value(t5, p5, "#555"@, l6, " stroke-width="@);
    let l7 = q + "/>\n"@;
    lemma_last(t6, p6, "1"@, l7, "/>\n"@);
    assert(export_svg::stroke_text(s) =~= t6 + "1"@ + l7);
}

/// What an element says is bare, whatever the text.
proof fn lemma_bare_text(t: Seq<char>)
    ensures
        bare(">"@ + export_svg::written(t) + "</text>\n"@),
{
    reveal_strlit(">");
    reveal_strlit("</text>\n");
    export_svg::written_text_is_safe(t);
    let w = export_svg::written(t);
    let all = ">"@ + w + "</text>\n"@;
    if all.contains('"') {
        let i = choose|i: int| 0 <= i < all.len() && all[i] == '"';
        if 1 <= i < 1 + w.len() {
            assert(w[i - 1] == '"');
        } else if i >= 1 + w.len() {
            assert("</text>\n"@[i - 1 - w.len()] == '"');
        }
    }
}

proof fn lemma_a_plate_reads_back_names()
    ensures
        bare("  <rect x="@),
        bare(" y="@),
        bare(" width="@),
        bare(" height="@),
        bare(" fill="@),
        bare("#fafafa"@),
        bare("/>\n"@),
        "  <rect x=\""@ == "  <rect x="@ + seq!['"'],
        "\" y=\""@ == seq!['"'] + " y="@ + seq!['"'],
        "\" width=\""@ == seq!['"'] + " width="@ + seq!['"'],
        "\" height=\""@ == seq!['"'] + " height="@ + seq!['"'],
        "\" fill=\"#fafafa\"/>\n"@ == seq!['"'] + " fill="@ + seq!['"'] + "#fafafa"@ + seq!['"'] + "/>\n"@,
{
    reveal_strlit("  <rect x=\"");
    reveal_strlit("\" y=\"");
    reveal_strlit("\" width=\"");
    reveal_strlit("\" height=\"");
    reveal_strlit("\" fill=\"#fafafa\"/>\n");
    reveal_strlit("  <rect x=");
    reveal_strlit(" y=");
    reveal_strlit(" width=");
    reveal_strlit(" height=");
    reveal_strlit(" fill=");
    reveal_strlit("#fafafa");
    reveal_strlit("/>\n");
}

/// The place and the size of a plate are read back from it, each under its name, with
/// the colour of the ground.
pub proof fn a_plate_reads_back(x: Seq<char>, y: Seq<char>, w: Seq<char>, h: Seq<char>)
    requires
        bare(x),
        bare(y),
        bare(w),
        bare(h),
    ensures
        quoted(export_svg::rect(x, y, w, h)) == seq![
            "  <rect x="@,
            x,
            " y="@,
            y,
            " width="@,
            w,
            " height="@,
            h,
            " fill="@,
            "#fafafa"@,
            "/>\n"@,
        ],
{
    lemma_a_plate_reads_back_names();
    let q = seq!['"'];
    let p1 = seq!["  <rect x="@];
    let t1 = "  <rect x="@ + q;
    lemma_first(t1, "  <rect x="@);
    assert(quoted(t1) =~= p1.push(seq![]));
    let l2 = q + (" y="@) + q;
    let t2 = t1 + (x) + l2;
    let p2 = p1.push(x).push(" y="@);
    lemma_value(t1, p1, x, l2, " y="@);
    let l3 = q + (" width="@) + q;
    let t3 = t2 + (y) + l3;
    let p3 = p2.push(y).push(" width="@);
    lemma_value(t2, p2, y, l3, " width="@);
    let l4 = q + (" height="@) + q;
    let t4 = t3 + (w) + l4;
    let p4 = p3.push(w).push(" height="@);
    lemma_value(t3, p3, w, l4, " height="@);
    let l5 = q + (" fill="@) + q;
    let t5 = t4 + (h) + l5;
    let p5 = p4.push(h).push(" fill="@);
    lemma_value(t4, p4, h, l5, " fill="@);
    let l6 = q + ("/>\n"@);
    lemma_last(t5, p5, "#fafafa"@, l6, "/>\n"@);
    assert(export_svg::rect(x, y, w, h) =~= t5 + ("#fafafa"@) + l6);
}

proof fn lemma_a_row_of_the_root_reads_back_names()
    ensures
        bare("  <text x="@),
        bare(" y="@),
        bare(" text-anchor="@),
        bare("middle"@),
        bare(" dominant-baseline="@),
        bare("central"@),
        bare(" font-size="@),
        bare("17.00"@),
        bare(" font-weight="@),
        bare("bold"@),
        bare(" fill="@),
        bare("#1a1a1a"@),
        bare(">"@),
        bare("</text>\n"@),
        "  <text x=\""@ == "  <text x="@ + seq!['"'],
        "\" y=\""@ == seq!['"'] + " y="@ + seq!['"'],
        "\" text-anchor=\"middle\" dominant-baseline=\"central\" font-size=\""@ == seq!['"'] + " text-anchor="@ + seq!['"'] + "middle"@ + seq!['"'] + " dominant-baseline="@ + seq!['"'] + "central"@ + seq!['"'] + " font-size="@ + seq!['"'],
        "17.00\" font-weight=\"bold\" fill=\"#1a1a1a\">"@ == "17.00"@ + seq!['"'] + " font-weight="@ + seq!['"'] + "bold"@ + seq!['"'] + " fill="@ + seq!['"'] + "#1a1a1a"@ + seq!['"'] + ">"@,
{
    reveal_strlit("  <text x=\"");
    reveal_strlit("\" y=\"");
    reveal_strlit("\" text-anchor=\"middle\" dominant-baseline=\"central\" font-size=\"");
    reveal_strlit("17.00\" font-weight=\"bold\" fill=\"#1a1a1a\">");
    reveal_strlit("</text>\n");
    reveal_strlit("  <text x=");
    reveal_strlit(" y=");
    reveal_strlit(" text-anchor=");
    reveal_strlit("middle");
    reveal_strlit(" dominant-baseline=");
    reveal_strlit("central");
    reveal_strlit(" font-size=");
    reveal_strlit("17.00");
    reveal_strlit(" font-weight=");
    reveal_strlit("bold");
    reveal_strlit(" fill=");
    reveal_strlit("#1a1a1a");
    reveal_strlit(">");
}

/// A line of the root's label is read back: where it stands, that it is set larger
/// than the others and bold, and what it says, as it is written and unescaped.
pub proof fn a_row_of_the_root_reads_back(r: Row)
    requires
        bare(r.x@),
        bare(r.y@),
    ensures
        quoted(export_svg::row_text(r, true)) == seq![
            "  <text x="@,
            r.x@,
            " y="@,
            r.y@,
            " text-anchor="@,
            "middle"@,
            " dominant-baseline="@,
            "central"@,
            " font-size="@,
            "17.00"@,
            " font-weight="@,
            "bold"@,
            " fill="@,
            "#1a1a1a"@,
            ">"@ + export_svg::written(r.text@) + "</text>\n"@,
        ],
        escape::unescaped(export_svg::written(r.text@)) == r.text@,
{
    lemma_a_row_of_the_root_reads_back_names();
    export_svg::written_text_is_safe(r.text@);
    escape::unescape_undoes_escape(r.text@);
    lemma_bare_text(r.text@);
    let q = seq!['"'];
    let p1 = seq!["  <text x="@];
    let t1 = "  <text x="@ + q;
    lemma_first(t1, "  <text x="@);
    assert(quoted(t1) =~= p1.push(seq![]));
    let l2 = q + (" y="@) + q;
    let t2 = t1 + (r.x@) + l2;
    let p2 = p1.push(r.x@).push(" y="@);
    lemma_value(t1, p1, r.x@, l2, " y="@);
    let l3 = q + (" text-anchor="@) + q;
    let t3 = t2 + (r.y@) + l3;
    let p3 = p2.push(r.y@).push(" text-anchor="@);
    lemma_value(t2, p2, r.y@, l3, " text-anchor="@);
    let l4 = q + (" dominant-baseline="@) + q;
    let t4 = t3 + ("middle"@) + l4;
    let p4 = p3.push("middle"@).push(" dominant-baseline="@);
    lemma_value(t3, p3, "middle"@, l4, " dominant-baseline="@);
    let l5 = q + (" font-size="@) + q;
    let t5 = t4 + ("central"@) + l5;
    let p5 = p4.push("central"@).push(" font-size="@);
    lemma_value(t4, p4, "central"@, l5, " font-size="@);
    let l6 = q + (" font-weight="@) + q;
    let t6 = t5 + ("17.00"@) + l6;
    let p6 = p5.push("17.00"@).push(" font-weight="@);
    lemma_value(t5, p5, "17.00"@, l6, " font-weight="@);
    let l7 = q + (" fill="@) + q;
    let t7 = t6 + ("bold"@) + l7;
    let p7 = p6.push("bold"@).push(" fill="@);
    lemma_value(t6, p6, "bold"@, l7, " fill="@);
    let l8 = q + (">"@ + export_svg::written(r.text@) + "</text>\n"@);
    lemma_last(t7, p7, "#1a1a1a"@, l8, ">"@ + export_svg::written(r.text@) + "</text>\n"@);
    assert(export_svg::row_text(r, true) =~= t7 + ("#1a1a1a"@) + l8);
}

proof fn lemma_a_row_reads_back_names()
    ensures
        bare("  <text x="@),
        bare(" y="@),
        bare(" text-anchor="@),
        bare("middle"@),
        bare(" dominant-baseline="@),
        bare("central"@),
        bare(" font-size="@),
        bare("15.00"@),
        bare(" fill="@),
        bare("#1a1a1a"@),
        bare(">"@),
        bare("</text>\n"@),
        "  <text x=\""@ == "  <text x="@ + seq!['"'],
        "\" y=\""@ == seq!['"'] + " y="@ + seq!['"'],
        "\" text-anchor=\"middle\" dominant-baseline=\"central\" font-size=\""@ == seq!['"'] + " text-anchor="@ + seq!['"'] + "middle"@ + seq!['"'] + " dominant-baseline="@ + seq!['"'] + "central"@ + seq!['"'] + " font-size="@ + seq!['"'],
        "15.00\" fill=\"#1a1a1a\">"@ == "15.00"@ + seq!['"'] + " fill="@ + seq!['"'] + "#1a1a1a"@ + seq!['"'] + ">"@,
{
    reveal_strlit("  <text x=\"");
    reveal_strlit("\" y=\"");
    reveal_strlit("\" text-anchor=\"middle\" dominant-baseline=\"central\" font-size=\"");
    reveal_strlit("15.00\" fill=\"#1a1a1a\">");
    reveal_strlit("</text>\n");
    reveal_strlit("  <text x=");
    reveal_strlit(" y=");
    reveal_strlit(" text-anchor=");
    reveal_strlit("middle");
    reveal_strlit(" dominant-baseline=");
    reveal_strlit("central");
    reveal_strlit(" font-size=");
    reveal_strlit("15.00");
    reveal_strlit(" fill=");
    reveal_strlit("#1a1a1a");
    reveal_strlit(">");
}

/// A line of any other label is read back: where it stands, and what it says.
pub proof fn a_row_reads_back(r: Row)
    requires
        bare(r.x@),
        bare(r.y@),
    ensures
        quoted(export_svg::row_text(r, false)) == seq![
            "  <text x="@,
            r.x@,
            " y="@,
            r.y@,
            " text-anchor="@,
            "middle"@,
            " dominant-baseline="@,
            "central"@,
            " font-size="@,
            "15.00"@,
            " fill="@,
            "#1a1a1a"@,
            ">"@ + export_svg::written(r.text@) + "</text>\n"@,
        ],
        escape::unescaped(export_svg::written(r.text@)) == r.text@,
{
    lemma_a_row_reads_back_names();
    export_svg::written_text_is_safe(r.text@);
    escape::unescape_undoes_escape(r.text@);
    lemma_bare_text(r.text@);
    let q = seq!['"'];
    let p1 = seq!["  <text x="@];
    let t1 = "  <text x="@ + q;
    lemma_first(t1, "  <text x="@);
    assert(quoted(t1) =~= p1.push(seq![]));
    let l2 = q + (" y="@) + q;
    let t2 = t1 + (r.x@) + l2;
    let p2 = p1.push(r.x@).push(" y="@);
    lemma_value(t1, p1, r.x@, l2, " y="@);
    let l3 = q + (" text-anchor="@) + q;
    let t3 = t2 + (r.y@) + l3;
    let p3 = p2.push(r.y@).push(" text-anchor="@);
    lemma_value(t2, p2, r.y@, l3, " text-anchor="@);
    let l4 = q + (" dominant-baseline="@) + q;
    let t4 = t3 + ("middle"@) + l4;
    let p4 = p3.push("middle"@).push(" dominant-baseline="@);
    lemma_value(t3, p3, "middle"@, l4, " dominant-baseline="@);
    let l5 = q + (" font-size="@) + q;
    let t5 = t4 + ("central"@) + l5;
    let p5 = p4.push("central"@).push(" font-size="@);
    lemma_value(t4, p4, "central"@, l5, " font-size="@);
    let l6 = q + (" fill="@) + q;
    let t6 = t5 + ("15.00"@) + l6;
    let p6 = p5.push("15.00"@).push(" fill="@);
    lemma_value(t5, p5, "15.00"@, l6, " fill="@);
    let l7 = q + (">"@ + export_svg::written(r.text@) + "</text>\n"@);
    lemma_last(t6, p6, "#1a1a1a"@, l7, ">"@ + export_svg::written(r.text@) + "</text>\n"@);
    assert(export_svg::row_text(r, false) =~= t6 + ("#1a1a1a"@) + l7);
}

proof fn lemma_bare_join(a: Seq<char>, b: Seq<char>)
    requires
        bare(a),
        bare(b),
    ensures
        bare(a + b),
{
    if (a + b).contains('"') {
        let i = choose|i: int| 0 <= i < (a + b).len() && (a + b)[i] == '"';
        if i < a.len() {
            assert(a[i] == '"');
        } else {
            assert(b[i - a.len()] == '"');
        }
    }
}

proof fn lemma_edge_words_names()
    ensures
        bare("  <text x="@),
        bare(" y="@),
        bare(" text-anchor="@),
        bare("middle"@),
        bare(" dominant-baseline="@),
        bare("central"@),
        bare(" font-size="@),
        bare("12.00"@),
        bare(" fill="@),
        bare("#555"@),
        bare(">"@),
        bare("</text>\n"@),
        "  <text x=\""@ == "  <text x="@ + seq!['"'],
        "\" y=\""@ == seq!['"'] + " y="@ + seq!['"'],
        "\" text-anchor=\"middle\" dominant-baseline=\"central\" font-size=\""@ == seq!['"'] + " text-anchor="@ + seq!['"'] + "middle"@ + seq!['"'] + " dominant-baseline="@ + seq!['"'] + "central"@ + seq!['"'] + " font-size="@ + seq!['"'],
        "12.00\" fill=\"#555\">"@ == "12.00"@ + seq!['"'] + " fill="@ + seq!['"'] + "#555"@ + seq!['"'] + ">"@,
{
    reveal_strlit("  <text x=\"");
    reveal_strlit("\" y=\"");
    reveal_strlit("\" text-anchor=\"middle\" dominant-baseline=\"central\" font-size=\"");
    reveal_strlit("12.00\" fill=\"#555\">");
    reveal_strlit("</text>\n");
    reveal_strlit("  <text x=");
    reveal_strlit(" y=");
    reveal_strlit(" text-anchor=");
    reveal_strlit("middle");
    reveal_strlit(" dominant-baseline=");
    reveal_strlit("central");
    reveal_strlit(" font-size=");
    reveal_strlit("12.00");
    reveal_strlit(" fill=");
    reveal_strlit("#555");
    reveal_strlit(">");
}

proof fn lemma_edge_words(c: Chip, label: Seq<char>)
    requires
        bare(c.mid_x@),
        bare(c.mid_y@),
    ensures
        quoted(export_svg::text_at(c.mid_x@, c.mid_y@) + "12.00\" fill=\"#555\">"@ + export_svg::written(label) + "</text>\n"@) == seq![
            "  <text x="@,
            c.mid_x@,
            " y="@,
            c.mid_y@,
            " text-anchor="@,
            "middle"@,
            " dominant-baseline="@,
            "central"@,
            " font-size="@,
            "12.00"@,
            " fill="@,
            "#555"@,
            ">"@ + export_svg::written(label) + "</text>\n"@,
        ],
{
    lemma_edge_words_names();
    export_svg::written_text_is_safe(label);
    escape::unescape_undoes_escape(label);
    lemma_bare_text(label);
    let q = seq!['"'];
    let p1 = seq!["  <text x="@];
    let t1 = "  <text x="@ + q;
    lemma_first(t1, "  <text x="@);
    assert(quoted(t1) =~= p1.push(seq![]));
    let l2 = q + (" y="@) + q;
    let t2 = t1 + (c.mid_x@) + l2;
    let p2 = p1.push(c.mid_x@).push(" y="@);
    lemma_value(t1, p1, c.mid_x@, l2, " y="@);
    let l3 = q + (" text-anchor="@) + q;
    let t3 = t2 + (c.mid_y@) + l3;
    let p3 = p2.push(c.mid_y@).push(" text-anchor="@);
    lemma_value(t2, p2, c.mid_y@, l3, " text-anchor="@);
    let l4 = q + (" dominant-baseline="@) + q;
    let t4 = t3 + ("middle"@) + l4;
    let p4 = p3.push("middle"@).push(" dominant-baseline="@);
    lemma_value(t3, p3, "middle"@, l4, " dominant-baseline="@);
    let l5 = q + (" font-size="@) + q;
    let t5 = t4 + ("central"@) + l5;
    let p5 = p4.push("central"@).push(" font-size="@);
    lemma_value(t4, p4, "central"@, l5, " font-size="@);
    let l6 = q + (" fill="@) + q;
    let t6 = t5 + ("12.00"@) + l6;
    let p6 = p5.push("12.00"@).push(" fill="@);
    lemma_value(t5, p5, "12.00"@, l6, " fill="@);
    let l7 = q + (">"@ + export_svg::written(label) + "</text>\n"@);
    lemma_last(t6, p6, "#555"@, l7, ">"@ + export_svg::written(label) + "</text>\n"@);
    assert(export_svg::text_at(c.mid_x@, c.mid_y@) + "12.00\" fill=\"#555\">"@ + export_svg::written(label) + "</text>\n"@ =~= t6 + ("#555"@) + l7);
}

/// The label of an edge is read back: the plate under it first, and then the label in
/// the middle of the edge, where it stands and what it says.
pub proof fn an_edge_label_reads_back(c: Chip, label: Seq<char>)
    requires
        bare(c.mid_x@),
        bare(c.mid_y@),
    ensures
        escape::unescaped(export_svg::written(label)) == label,
        export_svg::edge_label_text(c, label).take(
            export_svg::rect(c.x@, c.y@, c.w@, c.h@).len() as int,
        ) == export_svg::rect(c.x@, c.y@, c.w@, c.h@),
        quoted(
            export_svg::edge_label_text(c, label).skip(
                export_svg::rect(c.x@, c.y@, c.w@, c.h@).len() as int,
            ),
        ) == seq![
            "  <text x="@,
            c.mid_x@,
            " y="@,
            c.mid_y@,
            " text-anchor="@,
            "middle"@,
            " dominant-baseline="@,
            "central"@,
            " font-size="@,
            "12.00"@,
            " fill="@,
            "#555"@,
            ">"@ + export_svg::written(label) + "</text>\n"@,
        ],
{
    escape::unescape_undoes_escape(label);
    lemma_edge_words(c, label);
    let plate = export_svg::rect(c.x@, c.y@, c.w@, c.h@);
    let words = export_svg::text_at(c.mid_x@, c.mid_y@) + "12.00\" fill=\"#555\">"@
        + export_svg::written(label) + "</text>\n"@;
    let all = export_svg::edge_label_text(c, label);
    assert(all =~= plate + words);
    assert(all.take(plate.len() as int) =~= plate);
    assert(all.skip(plate.len() as int) =~= words);
}

proof fn lemma_frame_opening_names()
    ensures
        bare("<svg xmlns="@),
        bare("http://www.w3.org/2000/svg"@),
        bare(" viewBox="@),
        bare(" "@),
        bare(" width="@),
        bare(" height="@),
        bare(" font-family="@),
        bare("Lilex, monospace"@),
        bare(">\n"@),
        "<svg xmlns=\"http://www.w3.org/2000/svg\" viewBox=\""@ == "<svg xmlns="@ + seq!['"'] + "http://www.w3.org/2000/svg"@ + seq!['"'] + " viewBox="@ + seq!['"'],
        "\" width=\""@ == seq!['"'] + " width="@ + seq!['"'],
        "\" height=\""@ == seq!['"'] + " height="@ + seq!['"'],
        "\" font-family=\"Lilex, monospace\">\n"@ == seq!['"'] + " font-family="@ + seq!['"'] + "Lilex, monospace"@ + seq!['"'] + ">\n"@,
{
    reveal_strlit("<svg xmlns=\"http://www.w3.org/2000/svg\" viewBox=\"");
    reveal_strlit(" ");
    reveal_strlit("\" width=\"");
    reveal_strlit("\" height=\"");
    reveal_strlit("\" font-family=\"Lilex, monospace\">\n");
    reveal_strlit("<svg xmlns=");
    reveal_strlit("http://www.w3.org/2000/svg");
    reveal_strlit(" viewBox=");
    reveal_strlit(" width=");
    reveal_strlit(" height=");
    reveal_strlit(" font-family=");
    reveal_strlit("Lilex, monospace");
    reveal_strlit(">\n");
}

proof fn lemma_frame_opening(f: Frame)
    requires
        bare(f.x@),
        bare(f.y@),
        bare(f.w@),
        bare(f.h@),
        bare(f.width@),
        bare(f.height@),
    ensures
        quoted("<svg xmlns=\"http://www.w3.org/2000/svg\" viewBox=\""@ + f.x@ + " "@ + f.y@ + " "@ + f.w@ + " "@ + f.h@ + "\" width=\""@ + f.width@ + "\" height=\""@ + f.height@ + "\" font-family=\"Lilex, monospace\">\n"@) == seq![
            "<svg xmlns="@,
            "http://www.w3.org/2000/svg"@,
            " viewBox="@,
            f.x@ + " "@ + f.y@ + " "@ + f.w@ + " "@ + f.h@,
            " width="@,
            f.width@,
            " height="@,
            f.height@,
            " font-family="@,
            "Lilex, monospace"@,
            ">\n"@,
        ],
{
    lemma_frame_opening_names();
    lemma_bare_join(f.x@, " "@);
    lemma_bare_join(f.x@ + " "@, f.y@);
    lemma_bare_join(f.x@ + " "@ + f.y@, " "@);
    lemma_bare_join(f.x@ + " "@ + f.y@ + " "@, f.w@);
    lemma_bare_join(f.x@ + " "@ + f.y@ + " "@ + f.w@, " "@);
    lemma_bare_join(f.x@ + " "@ + f.y@ + " "@ + f.w@ + " "@, f.h@);
    let q = seq!['"'];
    let p1 = seq!["<svg xmlns="@];
    let t1 = "<svg xmlns="@ + q;
    lemma_first(t1, "<svg xmlns="@);
    assert(quoted(t1) =~= p1.push(seq![]));
    let l2 = q + (" viewBox="@) + q;
    let t2 = t1 + ("http://www.w3.org/2000/svg"@) + l2;
    let p2 = p1.push("http://www.w3.org/2000/svg"@).push(" viewBox="@);
    lemma_value(t1, p1, "http://www.w3.org/2000/svg"@, l2, " viewBox="@);
    let l3 = q + (" width="@) + q;
    let t3 = t2 + (f.x@ + " "@ + f.y@ + " "@ + f.w@ + " "@ + f.h@) + l3;
    let p3 = p2.push(f.x@ + " "@ + f.y@ + " "@ + f.w@ + " "@ + f.h@).push(" width="@);
    lemma_value(t2, p2, f.x@ + " "@ + f.y@ + " "@ + f.w@ + " "@ + f.h@, l3, " width="@);
    let l4 = q + (" height="@) + q;
    let t4 = t3 + (f.width@) + l4;
    let p4 = p3.push(f.width@).push(" height="@);
    lemma_value(t3, p3, f.width@, l4, " height="@);
    let l5 = q + (" font-family="@) + q;
    let t5 = t4 + (f.height@) + l5;
    let p5 = p4.push(f.height@).push(" font-family="@);
    lemma_value(t4, p4, f.height@, l5, " font-family="@);
    let l6 = q + (">\n"@);
    lemma_last(t5, p5, "Lilex, monospace"@, l6, ">\n"@);
    assert("<svg xmlns=\"http://www.w3.org/2000/svg\" viewBox=\""@ + f.x@ + " "@ + f.y@ + " "@ + f.w@ + " "@ + f.h@ + "\" width=\""@ + f.width@ + "\" height=\""@ + f.height@ + "\" font-family=\"Lilex, monospace\">\n"@ =~= t5 + ("Lilex, monospace"@) + l6);
}

/// The frame of a drawing is read back: what the view shows and how large it is, and
/// then a plate over all of it.
pub proof fn the_frame_reads_back(f: Frame)
    requires
        bare(f.x@),
        bare(f.y@),
        bare(f.w@),
        bare(f.h@),
        bare(f.width@),
        bare(f.height@),
    ensures
        export_svg::header(f).len() >= export_svg::rect(f.x@, f.y@, f.w@, f.h@).len(),
        export_svg::header(f).skip(
            export_svg::header(f).len() - export_svg::rect(f.x@, f.y@, f.w@, f.h@).len(),
        ) == export_svg::rect(f.x@, f.y@, f.w@, f.h@),
        quoted(
            export_svg::header(f).take(
                export_svg::header(f).len() - export_svg::rect(f.x@, f.y@, f.w@, f.h@).len(),
            ),
        ) == seq![
            "<svg xmlns="@,
            "http://www.w3.org/2000/svg"@,
            " viewBox="@,
            f.x@ + " "@ + f.y@ + " "@ + f.w@ + " "@ + f.h@,
            " width="@,
            f.width@,
            " height="@,
            f.height@,
            " font-family="@,
            "Lilex, monospace"@,
            ">\n"@,
        ],
{
    lemma_frame_opening(f);
    let plate = export_svg::rect(f.x@, f.y@, f.w@, f.h@);
    let opening = "<svg xmlns=\"http://www.w3.org/2000/svg\" viewBox=\""@ + f.x@ + " "@ + f.y@ + " "@ + f.w@ + " "@ + f.h@ + "\" width=\""@ + f.width@ + "\" height=\""@ + f.height@ + "\" font-family=\"Lilex, monospace\">\n"@;
    let all = export_svg::header(f);
    assert(all =~= opening + plate);
    assert(all.take(opening.len() as int) =~= opening);
    assert(all.skip(opening.len() as int) =~= plate);
}

proof fn lemma_edges_join(a: Seq<DrawnEdge>, b: Seq<DrawnEdge>)
    ensures
        export_svg::edges_text(a + b) == export_svg::edges_text(a) + export_svg::edges_text(b),
    decreases b.len(),
{
    if b.len() == 0 {
        assert(a + b =~= a);
        assert(export_svg::edges_text(a) + export_svg::edges_text(b) =~= export_svg::edges_text(a));
    } else {
        lemma_edges_join(a, b.drop_last());
        assert((a + b).drop_last() =~= a + b.drop_last());
        assert((a + b).last() == b.last());
        assert(export_svg::edges_text(a + b) =~= export_svg::edges_text(a)
            + export_svg::edges_text(b));
    }
}

proof fn lemma_rows_join(a: Seq<Row>, b: Seq<Row>, root: bool)
    ensures
        export_svg::rows_text(a + b, root) == export_svg::rows_text(a, root)
            + export_svg::rows_text(b, root),
    decreases b.len(),
{
    if b.len() == 0 {
        assert(a + b =~= a);
        assert(export_svg::rows_text(a, root) + export_svg::rows_text(b, root)
            =~= export_svg::rows_text(a, root));
    } else {
        lemma_rows_join(a, b.drop_last(), root);
        assert((a + b).drop_last() =~= a + b.drop_last());
        assert((a + b).last() == b.last());
        assert(export_svg::rows_text(a + b, root) =~= export_svg::rows_text(a, root)
            + export_svg::rows_text(b, root));
    }
}

proof fn lemma_labels_join(a: Seq<DrawnLabel>, b: Seq<DrawnLabel>)
    ensures
        export_svg::labels_text(a + b) == export_svg::labels_text(a) + export_svg::labels_text(b),
    decreases b.len(),
{
    if b.len() == 0 {
        assert(a + b =~= a);
        assert(export_svg::labels_text(a) + export_svg::labels_text(b) =~= export_svg::labels_text(
            a,
        ));
    } else {
        lemma_labels_join(a, b.drop_last());
        assert((a + b).drop_last() =~= a + b.drop_last());
        assert((a + b).last() == b.last());
        assert(export_svg::labels_text(a + b) =~= export_svg::labels_text(a)
            + export_svg::labels_text(b));
    }
}

/// `part` stands in `whole`, from `from` on at the earliest and before `to`.
pub open spec fn stands_within(whole: Seq<char>, part: Seq<char>, from: int, to: int) -> bool {
    exists|i: int|
        from <= i && i + part.len() <= to && to <= whole.len() && #[trigger] whole.subrange(
            i,
            i + part.len(),
        ) == part
}

/// Where a part of a part stands.
proof fn lemma_stands(
    head: Seq<char>,
    a: Seq<char>,
    b: Seq<char>,
    c: Seq<char>,
    rest: Seq<char>,
    part: Seq<char>,
    k: int,
)
    requires
        0 <= k,
        k + part.len() <= b.len(),
        b.subrange(k, k + part.len()) == part,
    ensures
        stands_within(
            head + (a + b + c) + rest,
            part,
            head.len() as int,
            (head.len() + (a + b + c).len()) as int,
        ),
{
    let whole = head + (a + b + c) + rest;
    let at = head.len() + a.len() + k;
    assert forall|i: int| 0 <= i < part.len() implies whole[at + i] == part[i] by {
        assert(part[i] == b[k + i]);
    }
    assert(whole.subrange(at, at + part.len()) =~= part);
}

proof fn lemma_edge_among(edges: Seq<DrawnEdge>, i: int)
    requires
        0 <= i < edges.len(),
    ensures
        export_svg::edges_text(edges) == export_svg::edges_text(edges.take(i))
            + export_svg::edge_text(edges[i]) + export_svg::edges_text(edges.skip(i + 1)),
{
    let one = seq![edges[i]];
    assert(edges =~= edges.take(i) + one + edges.skip(i + 1));
    lemma_edges_join(edges.take(i) + one, edges.skip(i + 1));
    lemma_edges_join(edges.take(i), one);
    assert(one.drop_last() =~= seq![]);
    assert(export_svg::edges_text(one.drop_last()).len() == 0);
    assert(one.last() == edges[i]);
    assert(export_svg::edges_text(one) =~= export_svg::edge_text(edges[i]));
}

/// An edge is written with its line, if it has one, and then with its label, if it
/// has one.
pub proof fn an_edge_is_its_line_and_its_label(e: DrawnEdge)
    ensures
        e.line matches Some(s) ==> export_svg::edge_text(e).len() >= export_svg::stroke_text(s).len()
            && export_svg::edge_text(e).take(export_svg::stroke_text(s).len() as int)
            == export_svg::stroke_text(s),
        e.label matches Some(l) ==> {
            let t = export_svg::edge_label_text(l.0, l.1@);
            &&& export_svg::edge_text(e).len() >= t.len()
            &&& export_svg::edge_text(e).skip(export_svg::edge_text(e).len() - t.len()) == t
        },
        export_svg::edge_text(e).len() == (match e.line {
            Some(s) => export_svg::stroke_text(s).len(),
            None => 0,
        }) + (match e.label {
            Some(l) => export_svg::edge_label_text(l.0, l.1@).len(),
            None => 0,
        }),
{
    let line = match e.line {
        Some(s) => export_svg::stroke_text(s),
        None => seq![],
    };
    let label = match e.label {
        Some(l) => export_svg::edge_label_text(l.0, l.1@),
        None => seq![],
    };
    let all = export_svg::edge_text(e);
    assert(all == line + label);
    lemma_ends(line, label);
}

proof fn lemma_ends(a: Seq<char>, b: Seq<char>)
    ensures
        (a + b).take(a.len() as int) == a,
        (a + b).skip((a + b).len() - b.len()) == b,
{
    assert((a + b).take(a.len() as int) =~= a);
    assert((a + b).skip((a + b).len() - b.len()) =~= b);
}

/// A document begins with the frame of its drawing, then come all edges, so that the
/// labels sit on top of them, then all labels, and it is closed.
pub proof fn a_document_is_framed(d: Drawing)
    ensures
        export_svg::document(d).take(export_svg::header(d.frame).len() as int) == export_svg::header(
            d.frame,
        ),
        export_svg::document(d).skip(export_svg::document(d).len() - "</svg>"@.len()) == "</svg>"@,
        export_svg::document(d) == export_svg::header(d.frame) + export_svg::edges_text(d.edges@) + (
        export_svg::labels_text(d.labels@) + "</svg>"@),
{
    lemma_framed(
        export_svg::header(d.frame),
        export_svg::edges_text(d.edges@),
        export_svg::labels_text(d.labels@),
        "</svg>"@,
    );
}

proof fn lemma_framed(a: Seq<char>, b: Seq<char>, c: Seq<char>, e: Seq<char>)
    ensures
        (a + b + c + e).take(a.len() as int) == a,
        (a + b + c + e).skip((a + b + c + e).len() - e.len()) == e,
        a + b + c + e == a + b + (c + e),
{
    assert((a + b + c + e).take(a.len() as int) =~= a);
    assert((a + b + c + e).skip((a + b + c + e).len() - e.len()) =~= e);
    assert(a + b + c + e =~= a + b + (c + e));
}

/// Every edge of a drawing stands in its document, with its line and with its label,
/// after the frame and before every label of a node.
pub proof fn every_edge_is_written(d: Drawing, i: int)
    requires
        0 <= i < d.edges@.len(),
    ensures
        ({
            let whole = export_svg::document(d);
            let from = export_svg::header(d.frame).len() as int;
            let to = from + export_svg::edges_text(d.edges@).len();
            &&& d.edges@[i].line matches Some(s) ==> stands_within(
                whole,
                export_svg::stroke_text(s),
                from,
                to,
            )
            &&& d.edges@[i].label matches Some(l) ==> stands_within(
                whole,
                export_svg::edge_label_text(l.0, l.1@),
                from,
                to,
            )
        }),
{
    let e = d.edges@[i];
    let head = export_svg::header(d.frame);
    let a = export_svg::edges_text(d.edges@.take(i));
    let b = export_svg::edge_text(e);
    let c = export_svg::edges_text(d.edges@.skip(i + 1));
    let rest = export_svg::labels_text(d.labels@) + "</svg>"@;
    lemma_edge_among(d.edges@, i);
    a_document_is_framed(d);
    an_edge_is_its_line_and_its_label(e);
    if let Some(s) = e.line {
        let t = export_svg::stroke_text(s);
        assert(b.subrange(0, t.len() as int) =~= b.take(t.len() as int));
        lemma_stands(head, a, b, c, rest, t, 0);
    }
    if let Some(l) = e.label {
        let t = export_svg::edge_label_text(l.0, l.1@);
        let k = b.len() - t.len();
        assert(b.subrange(k, k + t.len()) =~= b.skip(k));
        lemma_stands(head, a, b, c, rest, t, k);
    }
}

proof fn lemma_row_among(rows: Seq<Row>, root: bool, j: int)
    requires
        0 <= j < rows.len(),
    ensures
        export_svg::rows_text(rows, root) == export_svg::rows_text(rows.take(j), root)
            + export_svg::row_text(rows[j], root) + export_svg::rows_text(rows.skip(j + 1), root),
{
    let one = seq![rows[j]];
    assert(rows =~= rows.take(j) + one + rows.skip(j + 1));
    lemma_rows_join(rows.take(j) + one, rows.skip(j + 1), root);
    lemma_rows_join(rows.take(j), one, root);
    assert(one.drop_last() =~= seq![]);
    assert(export_svg::rows_text(one.drop_last(), root).len() == 0);
    assert(one.last() == rows[j]);
    assert(export_svg::rows_text(one, root) =~= export_svg::row_text(rows[j], root));
}

proof fn lemma_label_among(labels: Seq<DrawnLabel>, i: int)
    requires
        0 <= i < labels.len(),
    ensures
        export_svg::labels_text(labels) == export_svg::labels_text(labels.take(i))
            + export_svg::rows_text(labels[i].rows@, labels[i].root) + export_svg::labels_text(
            labels.skip(i + 1),
        ),
{
    let one = seq![labels[i]];
    assert(labels =~= labels.take(i) + one + labels.skip(i + 1));
    lemma_labels_join(labels.take(i) + one, labels.skip(i + 1));
    lemma_labels_join(labels.take(i), one);
    assert(one.drop_last() =~= seq![]);
    assert(export_svg::labels_text(one.drop_last()).len() == 0);
    assert(one.last() == labels[i]);
    assert(export_svg::labels_text(one) =~= export_svg::rows_text(labels[i].rows@, labels[i].root));
}

/// Every line of every label of a drawing stands in its document, after the frame and
/// after every edge.
pub proof fn every_label_is_written(d: Drawing, i: int, j: int)
    requires
        0 <= i < d.labels@.len(),
        0 <= j < d.labels@[i].rows@.len(),
    ensures
        stands_within(
            export_svg::document(d),
            export_svg::row_text(d.labels@[i].rows@[j], d.labels@[i].root),
            (export_svg::header(d.frame).len() + export_svg::edges_text(d.edges@).len()) as int,
            export_svg::document(d).len() - "</svg>"@.len(),
        ),
{
    let l = d.labels@[i];
    let head = export_svg::header(d.frame) + export_svg::edges_text(d.edges@);
    let a = export_svg::labels_text(d.labels@.take(i));
    let b = export_svg::rows_text(l.rows@, l.root);
    let c = export_svg::labels_text(d.labels@.skip(i + 1));
    let x = export_svg::rows_text(l.rows@.take(j), l.root);
    let y = export_svg::row_text(l.rows@[j], l.root);
    let z = export_svg::rows_text(l.rows@.skip(j + 1), l.root);
    lemma_label_among(d.labels@, i);
    lemma_row_among(l.rows@, l.root, j);
    let k = x.len() as int;
    lemma_middle(x, y, z);
    lemma_stands(head, a, b, c, "</svg>"@, y, k);
}

proof fn lemma_middle(x: Seq<char>, y: Seq<char>, z: Seq<char>)
    ensures
        (x + y + z).subrange(x.len() as int, x.len() + y.len() as int) == y,
{
    assert((x + y + z).subrange(x.len() as int, x.len() + y.len() as int) =~= y);
}

/// The extent of a label: as many lines as its text is cut into, and as wide as the
/// longest of them, at the place of its node.
pub proof fn an_extent_holds_the_label(n: NodeModel, root: bool, i: int)
    requires
        text::rows_of(n.text).len() <= usize::MAX,
        forall|k: int|
            0 <= k < text::rows_of(n.text).len() ==> (#[trigger] text::rows_of(n.text)[k]).len()
                <= usize::MAX,
        0 <= i < text::rows_of(n.text).len(),
    ensures
        ({
            let e = export_svg::extent_of(n, root);
            &&& (e.x, e.y) == (n.x, n.y)
            &&& e.root == root
            &&& e.lines == text::rows_of(n.text).len()
            &&& e.widest >= text::rows_of(n.text)[i].len()
            &&& exists|k: int|
                0 <= k < text::rows_of(n.text).len() && e.widest == (#[trigger] text::rows_of(
                    n.text,
                )[k]).len()
        }),
{
    lemma_longest(text::rows_of(n.text), i);
}

proof fn lemma_longest(rows: Seq<Seq<char>>, i: int)
    requires
        0 <= i < rows.len(),
    ensures
        export_svg::longest(rows) >= rows[i].len(),
        exists|k: int| 0 <= k < rows.len() && export_svg::longest(rows) == (#[trigger] rows[k]).len(),
    decreases rows.len(),
{
    let less = rows.drop_last();
    if rows.len() == 1 {
        assert(less =~= seq![]);
        assert(export_svg::longest(less) == 0);
        assert(rows.last() == rows[0]);
        assert(export_svg::longest(rows) == rows[0].len());
    } else {
        lemma_longest(less, if i < rows.len() - 1 { i } else { 0 });
        let k = choose|k: int|
            0 <= k < less.len() && export_svg::longest(less) == (#[trigger] less[k]).len();
        assert(less[k] == rows[k]);
        assert(rows.last() == rows[rows.len() - 1]);
        if i < rows.len() - 1 {
            assert(less[i] == rows[i]);
        }
    }
}

/// A drawing shows every node, once: there are as many labels as nodes, and for every
/// node there is one with the lines of its text, in order, marked as the root's if it
/// is the root's.
pub proof fn every_node_is_drawn<
    F: Fn(&Vec<Extent>) -> Frame,
    L: Fn(Extent, Extent) -> Option<Stroke>,
    C: Fn(Extent, Extent, usize) -> Chip,
    R: Fn(Extent, usize) -> (String, String),
>(g: GraphModel, d: Drawing, frame: &F, line: &L, chip: &C, row: &R, id: u64) -> (i: int)
    requires
        export_svg::draws(g, d, frame, line, chip, row),
        g.nodes.dom().finite(),
        g.has(id),
    ensures
        d.labels@.len() == g.nodes.dom().len(),
        0 <= i < d.labels@.len(),
        d.labels@[i].root <==> id == g.root,
        d.labels@[i].rows@.len() == text::rows_of(g.nodes[id].text).len(),
        forall|j: int|
            0 <= j < d.labels@[i].rows@.len() ==> (#[trigger] d.labels@[i].rows@[j]).text@
                == text::rows_of(g.nodes[id].text)[j],
{
    let nodes = ids::listed(g.nodes.dom());
    ids::lemma_has_list(g.nodes.dom());
    ids::lemma_lists_len(nodes, g.nodes.dom());
    assert(nodes.contains(id));
    let i = choose|i: int| 0 <= i < nodes.len() && nodes[i] == id;
    assert(export_svg::label_drawn(g, nodes[i], d.labels@[i], row));
    i
}

/// A drawing shows every edge between two nodes that are there: with the line that goes
/// from the label of the one to that of the other, and with the edge's label if it has
/// one.
pub proof fn every_edge_is_drawn<
    F: Fn(&Vec<Extent>) -> Frame,
    L: Fn(Extent, Extent) -> Option<Stroke>,
    C: Fn(Extent, Extent, usize) -> Chip,
    R: Fn(Extent, usize) -> (String, String),
>(g: GraphModel, d: Drawing, frame: &F, line: &L, chip: &C, row: &R, e: u64) -> (i: int)
    requires
        export_svg::draws(g, d, frame, line, chip, row),
        g.edges.dom().finite(),
        g.edges.dom().contains(e),
        g.has(g.edges[e].from),
        g.has(g.edges[e].to),
    ensures
        d.edges@.len() <= g.edges.dom().len(),
        0 <= i < d.edges@.len(),
        line.ensures(
            (
                export_svg::extent_of(g.nodes[g.edges[e].from], g.edges[e].from == g.root),
                export_svg::extent_of(g.nodes[g.edges[e].to], g.edges[e].to == g.root),
            ),
            d.edges@[i].line,
        ),
        d.edges@[i].label is Some <==> g.edges[e].label.len() > 0,
        d.edges@[i].label matches Some(l) ==> l.1@ == g.edges[e].label,
{
    broadcast use vstd::seq_lib::group_filter_ensures;

    let all = ids::listed(g.edges.dom());
    ids::lemma_has_list(g.edges.dom());
    ids::lemma_lists_len(all, g.edges.dom());
    let keep = |e: u64| export_svg::hangs(g, e);
    let edges = export_svg::drawn_edges(g);
    assert(edges == all.filter(keep));
    assert(all.contains(e));
    assert(keep(e));
    let at = choose|i: int| 0 <= i < all.len() && all[i] == e;
    all.lemma_filter_contains(keep, at);
    assert(edges.contains(e));
    let i = choose|i: int| 0 <= i < edges.len() && edges[i] == e;
    assert(export_svg::edge_drawn(g, g.edges[edges[i]], d.edges@[i], line, chip));
    i
}

} // verus!
