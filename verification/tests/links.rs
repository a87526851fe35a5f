use bgawk::links::{clamp_sides, parse_links, Direction, Property};
use bgawk::{Link, Links};

fn link(p: &str, d: &str, v: &str) -> Link {
    Link { property: p.to_string(), dir: d.to_string(), var: v.to_string() }
}

#[test]
fn parses_one_link_per_line() {
    let links = parse_links("x < a\ny > b\n");
    assert_eq!(links, vec![link("x", "<", "a"), link("y", ">", "b")]);
}

#[test]
fn skips_lines_with_fewer_than_three_words() {
    let links = parse_links("x <\n\n   \nrot > angle\nmass");
    assert_eq!(links, vec![link("rot", ">", "angle")]);
}

#[test]
fn keeps_only_first_three_words() {
    let links = parse_links("vx < speed extra words");
    assert_eq!(links, vec![link("vx", "<", "speed")]);
}

#[test]
fn splits_on_any_ascii_whitespace() {
    let links = parse_links("\t h\x0C<\r\nhue\r\n  s \t >  sat  ");
    assert_eq!(links, vec![link("s", ">", "sat")]);
    let links = parse_links("h\t<\x0Chue\r\n");
    assert_eq!(links, vec![link("h", "<", "hue")]);
}

#[test]
fn empty_text_has_no_links() {
    assert!(parse_links("").is_empty());
    assert!(parse_links("\n\n").is_empty());
}

#[test]
fn unicode_words_are_kept_whole() {
    let links = parse_links("x < größe");
    assert_eq!(links, vec![link("x", "<", "größe")]);
}

#[test]
fn joined_texts_give_joined_links() {
    let a = "x < a\nq";
    let b = "y > b";
    let mut joined = parse_links(a);
    joined.extend(parse_links(b));
    assert_eq!(parse_links(&format!("{a}\n{b}")), joined);
}

#[test]
fn links_component_parses_its_text() {
    let links = Links("cmx < cx\ncmy > cy".to_string());
    assert_eq!(links.parse(), vec![link("cmx", "<", "cx"), link("cmy", ">", "cy")]);
    let empty: Links = Default::default();
    assert!(empty.parse().is_empty());
}

#[test]
fn property_names() {
    let names = [
        ("x", Property::X),
        ("y", Property::Y),
        ("rx", Property::Rx),
        ("ry", Property::Ry),
        ("rot", Property::Rot),
        ("mass", Property::Mass),
        ("vx", Property::Vx),
        ("vy", Property::Vy),
        ("va", Property::Va),
        ("restitution", Property::Restitution),
        ("lindamp", Property::LinDamp),
        ("angdamp", Property::AngDamp),
        ("inertia", Property::Inertia),
        ("h", Property::H),
        ("s", Property::S),
        ("l", Property::L),
        ("a", Property::A),
        ("sides", Property::Sides),
        ("cmx", Property::Cmx),
        ("cmy", Property::Cmy),
    ];
    for (name, p) in names {
        assert_eq!(Property::from_name(name), Some(p));
    }
    assert_eq!(Property::from_name("X"), None);
    assert_eq!(Property::from_name("rotation"), None);
    assert_eq!(Property::from_name(""), None);
}

#[test]
fn direction_symbols() {
    assert_eq!(Direction::from_symbol("<"), Some(Direction::FromVariable));
    assert_eq!(Direction::from_symbol(">"), Some(Direction::ToVariable));
    assert_eq!(Direction::from_symbol("="), None);
    assert_eq!(Direction::from_symbol("<<"), None);
}

#[test]
fn sides_are_clamped() {
    assert_eq!(clamp_sides(0), 3);
    assert_eq!(clamp_sides(2), 3);
    assert_eq!(clamp_sides(3), 3);
    assert_eq!(clamp_sides(7), 7);
    assert_eq!(clamp_sides(128), 128);
    assert_eq!(clamp_sides(129), 128);
    assert_eq!(clamp_sides(u32::MAX), 128);
}

#[test]
fn crlf_line_endings_read_as_lf() {
    assert_eq!(parse_links("x < a\r\ny > b\r\n"), parse_links("x < a\ny > b\n"));
    assert_eq!(parse_links("x < a\r\n"), vec![link("x", "<", "a")]);
}
