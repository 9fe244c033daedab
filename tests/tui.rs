use tui_kit::tui::{Container, Dimensions, Element, Heading, Text};

fn text(s: &str) -> Element {
    Element::Text(Text { text: String::from(s) })
}

fn heading(s: &str) -> Element {
    Element::Heading(Heading { text: String::from(s) })
}

fn render(e: &Element) -> String {
    let mut out = String::new();
    e.render(&mut out);
    out
}

#[test]
fn container_test() {
    let text1 = Heading {
        text: String::from("Hello world"),
    };
    let text2 = Text {
        text: String::from("This is a long string of text"),
    };
    let children: Vec<Element> = vec![Element::Heading(text1), Element::Text(text2)];
    let container = Container { children: children };
    let mut out = String::new();
    container.render(&mut out);
    println!("{}", out);

    assert!(true);
}

#[test]
fn empty_container_renders_two_corner_lines() {
    let c = Element::Container(Container { children: vec![] });
    assert_eq!(c.dimensions(), Dimensions { width: 2, height: 0 });
    assert_eq!(render(&c), "++\n++\n");
}

#[test]
fn two_plain_children_are_padded() {
    let c = Element::Container(Container {
        children: vec![text("abc"), text("hello")],
    });
    assert_eq!(c.dimensions(), Dimensions { width: 7, height: 2 });
    let out = render(&c);
    let lines: Vec<&str> = out.lines().collect();
    assert_eq!(lines, vec!["+-----+", "|abc  |", "|hello|", "+-----+"]);
}

#[test]
fn mixed_emphasis_container() {
    let c = Element::Container(Container {
        children: vec![heading("Hello world"), text("This is a long string of text")],
    });
    assert_eq!(c.dimensions(), Dimensions { width: 31, height: 2 });
    let border = format!("+{}+", "-".repeat(29));
    let first = format!("|\u{1b}[1mHello world\u{1b}[0m{}|", " ".repeat(18));
    let expected = format!("{border}\n{first}\n|This is a long string of text|\n{border}\n");
    assert_eq!(render(&c), expected);
}

#[test]
fn heading_render_is_byte_exact() {
    let h = heading("hi");
    assert_eq!(render(&h).as_bytes(), b"\x1b[1mhi\x1b[0m");
    assert_eq!(h.dimensions(), Dimensions { width: 2, height: 1 });
}

#[test]
fn text_width_counts_characters_not_bytes() {
    let t = text("héllo");
    assert_eq!(t.dimensions(), Dimensions { width: 5, height: 1 });
    let e = text("");
    assert_eq!(e.dimensions(), Dimensions { width: 0, height: 1 });
    assert_eq!(render(&e), "");
}

#[test]
fn dimensions_twice_are_equal() {
    let c = Element::Container(Container {
        children: vec![text("abc"), heading("de"), Element::Container(Container { children: vec![text("x")] })],
    });
    let a = c.dimensions();
    let b = c.dimensions();
    assert_eq!(a, b);
}

#[test]
fn width_is_two_plus_widest_child() {
    let c = Element::Container(Container {
        children: vec![text("a"), text("abcd"), heading("ab")],
    });
    assert_eq!(c.dimensions().width, 6);
}

#[test]
fn height_is_sum_of_child_heights() {
    let inner = Element::Container(Container {
        children: vec![text("a"), text("b"), text("c")],
    });
    let c = Element::Container(Container {
        children: vec![text("x"), inner],
    });
    assert_eq!(c.dimensions().height, 4);
}

#[test]
fn border_lines_are_identical() {
    let c = Element::Container(Container {
        children: vec![text("abc"), heading("hello")],
    });
    let out = render(&c);
    let lines: Vec<&str> = out.lines().collect();
    assert_eq!(lines.first(), lines.last());
    assert_eq!(lines[0], "+-----+");
}

#[test]
fn nested_container_width_propagates() {
    let inner = Element::Container(Container {
        children: vec![text("abcd")],
    });
    assert_eq!(inner.dimensions().width, 6);
    let outer = Element::Container(Container { children: vec![inner] });
    assert_eq!(outer.dimensions(), Dimensions { width: 8, height: 1 });
    let out = render(&outer);
    assert_eq!(out, "+------+\n|+----+\n|abcd|\n+----+\n|\n+------+\n");
}

#[test]
fn wide_child_gets_no_padding() {
    let c = Element::Container(Container {
        children: vec![text("abc")],
    });
    assert_eq!(render(&c), "+---+\n|abc|\n+---+\n");
}
