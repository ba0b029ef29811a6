use libfim::buffer::{Buffer, GraphemeBound, PushError};
use libfim::document;
use libfim::document::ClusterBound::{Excluded, Included, Unbounded};
use libfim::grapheme_string::GraphemeString;
use libfim::config::options::{Options, TabSpaces, TabType, TabWidth};

#[test]
fn buffer_units_and_get() {
    let mut b = Buffer::new("ab\u{e9}c".to_string());
    assert_eq!(b.graphemes(), 4);
    assert_eq!(b.bytes(), 5);
    assert_eq!(b.get(0..2), "ab");
    assert_eq!(b.get(2..3), "\u{e9}");
    assert_eq!(b.get(1..4), "b\u{e9}c");
    assert_eq!(b.get(4..4), "");
}

#[test]
fn buffer_push() {
    let mut b = Buffer::new(String::new());
    assert_eq!(b.push("x"), Ok(()));
    assert_eq!(b.push("e\u{301}yz"), Ok(()));
    assert_eq!(b.graphemes(), 2);
    assert_eq!(b.get(1..2), "e\u{301}");
    assert_eq!(b.push(""), Ok(()));
    b.set_immutable();
    assert_eq!(b.push("q"), Err(PushError::ImmutableBuffer));
    assert_eq!(b.get(0..2), "xe\u{301}");
}

#[test]
fn buffer_push_full() {
    let mut b = Buffer::new("a".repeat(65535));
    assert_eq!(b.push("b"), Err(PushError::NotEnoughSpace));
    assert_eq!(b.bytes(), 65535);
}

#[test]
fn document_buffer_slices() {
    let d = document::Buffer::new("he\u{301}llo \u{1f600}!".to_string());
    assert_eq!(d.slice(0, 2), "he\u{301}");
    assert_eq!(d.slice(1, 1), "");
    assert_eq!(d.slice(6, 8), "\u{1f600}!");
    assert_eq!(d.slice(5, 6), " ");
}

#[test]
fn grapheme_string_cached_leaves_out_tabs() {
    let mut gs = GraphemeString::new("\t\tlet x = 1;\n");
    assert_eq!(gs.cached(None), "let x = 1;\n");
    // the cached text is not computed again
    assert_eq!(gs.cached(Some(&Options::default())), "let x = 1;\n");
}

#[test]
fn grapheme_string_cached_with_options() {
    let mut gs = GraphemeString::new("\tx");
    let mut o = Options::default();
    o.tab_spaces = TabSpaces(2);
    assert_eq!(gs.cached(Some(&o)), "  x");
    let mut gs2 = GraphemeString::new("\tx");
    o.tab_type = TabType::Tab;
    o.tab_width = TabWidth(3);
    assert_eq!(gs2.cached(Some(&o)), "   x");
}

#[test]
fn grapheme_string_serialize() {
    let mut gs = GraphemeString::new("\ta\u{301}\t");
    let mut o = Options::default();
    o.tab_spaces = TabSpaces(3);
    assert_eq!(gs.serialize(&o), "   a\u{301}   ");
    o.tab_type = TabType::Tab;
    assert_eq!(gs.serialize(&o), "\ta\u{301}\t");
}

#[test]
fn grapheme_string_widths() {
    let gs = GraphemeString::new("a\u{4e2d}\t");
    let mut o = Options::default();
    o.tab_spaces = TabSpaces(4);
    o.tab_width = TabWidth(8);
    assert_eq!(gs.width(None), 1 + 2 + 0);
    assert_eq!(gs.width_grapheme(2, None), Some(0));
    assert_eq!(gs.checked_width(None), Some(3));
    assert_eq!(gs.width(Some(&o)), 1 + 2 + 4);
    assert_eq!(gs.checked_width(Some(&o)), Some(7));
    assert_eq!(gs.width_grapheme(1, None), Some(2));
    assert_eq!(gs.width_grapheme(2, Some(&o)), Some(4));
    assert_eq!(gs.width_grapheme(3, None), None);
    o.tab_type = TabType::Tab;
    assert_eq!(gs.width_grapheme(2, Some(&o)), Some(8));
    assert_eq!(gs.width(Some(&o)), 1 + 2 + 8);
}

#[test]
fn buffer_counts_clusters() {
    let mut b = Buffer::new(String::from("a\r\nb"));
    assert_eq!(b.graphemes(), 3);
    assert_eq!(b.bytes(), 4);
    assert_eq!(b.get(1..2), "\r\n");
    assert_eq!(b.push("\r\nz"), Ok(()));
    assert_eq!(b.graphemes(), 4);
    assert_eq!(b.get(3..4), "\r\n");
}

#[test]
fn buffer_range_forms() {
    let mut b = Buffer::new(String::from("h\u{e9}llo"));
    assert_eq!(b.graphemes(), 5);
    assert_eq!(b.bytes(), 6);
    assert_eq!(b.get(3..5), "lo");
    assert_eq!(b.get(1..2), "\u{e9}");
    assert_eq!(b.get_bounds(GraphemeBound::Included(1), GraphemeBound::Included(1)), "\u{e9}");
    assert_eq!(b.get_bounds(GraphemeBound::Unbounded, GraphemeBound::Excluded(2)), "h\u{e9}");
    assert_eq!(b.get_bounds(GraphemeBound::Excluded(2), GraphemeBound::Unbounded), "lo");
    assert_eq!(b.get_bounds(GraphemeBound::Unbounded, GraphemeBound::Unbounded), "h\u{e9}llo");
    let mut c = Buffer::new(String::from("ab"));
    assert_eq!(c.push("\u{e9}"), Ok(()));
    assert_eq!(c.push("c"), Ok(()));
    assert_eq!(c.get(1..4), "b\u{e9}c");
    assert_eq!(c.graphemes(), 4);
    assert_eq!(c.bytes(), 5);
}

#[test]
fn buffer_stays_immutable() {
    let mut b = Buffer::new("ab".to_string());
    b.set_immutable();
    assert_eq!(b.push("c"), Err(PushError::ImmutableBuffer));
    assert_eq!(b.get(0..2), "ab");
    b.set_immutable();
    assert_eq!(b.push(""), Err(PushError::ImmutableBuffer));
    assert_eq!(b.push("d"), Err(PushError::ImmutableBuffer));
    assert_eq!(b.graphemes(), 2);
    assert_eq!(b.bytes(), 2);
    assert_eq!(b.get(0..2), "ab");
}

#[test]
fn document_buffer_range_forms() {
    let d = document::Buffer::new("he\u{301}llo \u{1f600}!".to_string());
    assert_eq!(d.slice_bounds(Included(0), Excluded(2)), "he\u{301}");
    assert_eq!(d.slice_bounds(Included(0), Included(2)), "he\u{301}l");
    assert_eq!(d.slice_bounds(Unbounded, Excluded(1)), "h");
    assert_eq!(d.slice_bounds(Included(6), Unbounded), "\u{1f600}!");
    assert_eq!(d.slice_bounds(Excluded(5), Unbounded), "\u{1f600}!");
    assert_eq!(d.slice_bounds(Unbounded, Unbounded), "he\u{301}llo \u{1f600}!");
    assert_eq!(d.slice_bounds(Included(3), Excluded(3)), "");
    let e = document::Buffer::new(String::new());
    assert_eq!(e.slice_bounds(Unbounded, Unbounded), "");
}
