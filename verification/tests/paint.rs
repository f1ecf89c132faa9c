//! How nodes, edges and labels are drawn.

use mindmap::markdown::MdStyle;
use mindmap::paint::{
    dot_groups, edge_look, label_lines, line_runs, md_attrs, node_look, tag_color, EdgeLook,
    EdgeState, Gap, Ink, NodeLook, NodeState, Picture, Plate,
};
use mindmap::theme::Theme;

fn quiet() -> NodeState {
    NodeState {
        readable: true,
        picture: Picture::Absent,
        root: false,
        focus: false,
        hover: false,
        selected: false,
        drop_target: false,
        fold: None,
        empty: false,
        color: None,
        dim: false,
        find_hit: None,
        editing: false,
    }
}

#[test]
fn six_tags_have_six_colours() {
    let mut seen = Vec::new();
    for tag in 1..=6u8 {
        let rgb = tag_color(Some(tag)).unwrap();
        assert!(!seen.contains(&rgb));
        seen.push(rgb);
    }
    assert_eq!(tag_color(Some(1)), Some(0xD14343));
    assert_eq!((tag_color(None), tag_color(Some(0)), tag_color(Some(7))), (None, None, None));
}

#[test]
fn a_label_breaks_at_its_hard_breaks() {
    assert_eq!(label_lines(""), vec![""]);
    assert_eq!(label_lines("a\nb\n"), vec!["a", "b", ""]);
}

#[test]
fn runs_cover_their_line() {
    let runs = line_runs("a **b** `c`");
    assert_eq!(runs.iter().map(|r| r.len).sum::<usize>(), 11);
    assert!(runs.iter().any(|r| r.attrs.bold));
    assert_eq!(line_runs("").len(), 1);
    assert_eq!(md_attrs(MdStyle::LinkUrl).ink, Ink::Accent);
    assert!(md_attrs(MdStyle::LinkUrl).underline);
    assert_eq!(md_attrs(MdStyle::Marker).ink, Ink::Dim);
}

#[test]
fn a_quiet_node_is_only_its_label() {
    let th = Theme::from_dark(false);
    match node_look(quiet(), &th) {
        NodeLook::Label { drop: None, wash: None, fold: None, find: None, ink, dim: false, .. } => {
            assert_eq!(ink, th.ink)
        }
        other => panic!("{other:?}"),
    }
    let tagged = NodeState { color: Some(3), selected: true, ..quiet() };
    match node_look(tagged, &th) {
        NodeLook::Label { wash: Some(_), ink, .. } => assert_eq!(ink, 0x2E9E54),
        other => panic!("{other:?}"),
    }
}

#[test]
fn a_node_too_small_to_read_is_a_mark() {
    let th = Theme::from_dark(true);
    let far = NodeState { readable: false, focus: true, ..quiet() };
    assert_eq!(node_look(far, &th), NodeLook::Mark { ink: th.accent });
    let away = NodeState { readable: false, ..quiet() };
    assert_eq!(node_look(away, &th), NodeLook::Mark { ink: th.ink_faint });
}

#[test]
fn a_picture_that_is_gone_is_crossed_out() {
    let th = Theme::from_dark(false);
    let gone = NodeState { picture: Picture::Missing, ..quiet() };
    assert!(matches!(node_look(gone, &th), NodeLook::Framed { plate: Plate::Crossed { .. }, .. }));
    let shown = NodeState { picture: Picture::Resident, ..quiet() };
    assert!(matches!(node_look(shown, &th), NodeLook::Framed { plate: Plate::Shown { .. }, .. }));
}

#[test]
fn an_edge_opens_for_its_label() {
    let th = Theme::from_dark(false);
    let plain = EdgeState {
        focus: false,
        hover: false,
        severing: false,
        labelled: false,
        readable: true,
    };
    assert_eq!(
        edge_look(plain, &th),
        EdgeLook::Channel {
            ink: th.line,
            thick: false,
            gap: Gap::Closed,
            hint: false,
            label: None,
        }
    );
    let hovered = EdgeState { hover: true, ..plain };
    assert_eq!(
        edge_look(hovered, &th),
        EdgeLook::Channel {
            ink: th.hover,
            thick: false,
            gap: Gap::ForLetter,
            hint: true,
            label: None,
        }
    );
    let severed = EdgeState { severing: true, ..plain };
    assert_eq!(edge_look(severed, &th), EdgeLook::Severed { ink: th.ink_faint });
}

#[test]
fn dots_are_drawn_colour_by_colour() {
    let groups = dot_groups(&vec![Some(2), None, Some(9), Some(2), Some(1)]);
    assert_eq!(groups.len(), 7);
    assert_eq!(groups[0], vec![1, 2]);
    assert_eq!(groups[1], vec![4]);
    assert_eq!(groups[2], vec![0, 3]);
    assert!(groups[3..].iter().all(|g| g.is_empty()));
}
