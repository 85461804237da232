use csv2svg::args::Format;
use csv2svg::visibility::Visibility;

#[test]
fn format_names_ignore_case() {
    assert_eq!(Format::parse("svg"), Ok(Format::Svg));
    assert_eq!(Format::parse("SVG"), Ok(Format::Svg));
    assert_eq!(Format::parse("s"), Ok(Format::Svg));
    assert_eq!(Format::parse("html"), Ok(Format::Html));
    assert_eq!(Format::parse("hTmL"), Ok(Format::Html));
    assert_eq!(Format::parse("H"), Ok(Format::Html));
}

#[test]
fn format_rejects_unknown_names() {
    assert!(Format::parse("png").is_err());
    assert!(Format::parse("").is_err());
    assert!(Format::parse("svg ").is_err());
}

#[test]
fn format_from_str() {
    assert_eq!("sVg".parse::<Format>(), Ok(Format::Svg));
    assert!("jpeg".parse::<Format>().is_err());
}

#[test]
fn visibility_css_classes() {
    assert_eq!(Visibility::Visible.css_class(), "std");
    assert_eq!(Visibility::Faded.css_class(), "fad");
    assert_eq!(Visibility::Invisible.css_class(), "inv");
}
