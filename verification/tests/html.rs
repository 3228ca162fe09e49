use halyard_tachys::html::{doctype, first_tag_name, InertElement};
use halyard_tachys::template::ViewTemplate;
use halyard_tachys::view::{HtmlLen, Position, RenderHtml};
use halyard_tachys::view_error::ViewError;

/// Spreading attributes onto an `InertElement` (as onto a component that returns one)
/// leaves its HTML as it is.
#[test]
fn inert_element_ignores_spread_attributes() {
    let (el, report) = InertElement::new("<p>inert</p>").add_any_attr(("id", "main"));
    assert_eq!(el.to_html(), "<p>inert</p>");
    assert_eq!(report, ViewError::AttributesIgnored { what: "an InertElement" });
}

#[test]
fn first_tag_name_is_the_name_of_the_first_tag() {
    assert_eq!(first_tag_name("<p class=\"x\">inert</p>"), "p");
    assert_eq!(first_tag_name("\n  <my-element/>"), "my-element");
    assert_eq!(first_tag_name("<circle r=\"1\"/>"), "circle");
    assert_eq!(first_tag_name("text"), "template");
    assert_eq!(first_tag_name("<>"), "template");
    assert_eq!(first_tag_name("<!-- comment -->"), "template");
    assert_eq!(first_tag_name(""), "template");
}

/// Spreading attributes onto a `ViewTemplate` leaves its HTML as it is.
#[test]
fn view_template_ignores_spread_attributes() {
    let (view, report) = ViewTemplate::new("hello").add_any_attr(("id", "main"));
    assert_eq!(view.to_html(), "hello");
    assert_eq!(report, ViewError::AttributesIgnored { what: "a ViewTemplate" });
}

/// A doctype renders its declaration, and its estimate covers the fixed part.
#[test]
fn doctype_renders_its_declaration() {
    let declaration = doctype("html");
    assert_eq!(declaration.html_len(), 15);
    let mut buf = String::from("x");
    let mut position = Position::FirstChild;
    doctype("html").to_html_with_buf(&mut buf, &mut position, true, false);
    assert_eq!(buf, "x<!DOCTYPE html>");
}

/// An inert element is written as it was given, whatever the position, and its estimate
/// is its length.
#[test]
fn inert_element_renders_its_html_as_given() {
    let el = InertElement::new("<b>&</b>");
    assert_eq!(el.html_len(), 8);
    let mut buf = String::new();
    let mut position = Position::NextChild;
    InertElement::new("<b>&</b>").to_html_with_buf(&mut buf, &mut position, true, false);
    assert_eq!(buf, "<b>&</b>");
}

/// Text is escaped where it is written escaped, and adjacent texts are kept apart by a
/// marker.
#[test]
fn text_is_escaped_and_separated_from_text_before_it() {
    let mut buf = String::new();
    let mut position = Position::FirstChild;
    "a<b&c>".to_html_with_buf(&mut buf, &mut position, true, false);
    assert_eq!(buf, "a&lt;b&amp;c&gt;");
    assert_eq!(position, Position::NextChildAfterText);
    "d".to_html_with_buf(&mut buf, &mut position, true, false);
    assert_eq!(buf, "a&lt;b&amp;c&gt;<!>d");
    let mut raw = String::new();
    let mut position = Position::FirstChild;
    String::from("<i>").to_html_with_buf(&mut raw, &mut position, false, false);
    assert_eq!(raw, "<i>");
    assert_eq!("ab".html_len(), 2);
}

use halyard_tachys::dom_error::DomError;

/// A DOM error reads as its operation and what went wrong, and its warning says what the
/// renderer did instead.
#[test]
fn a_dom_error_names_its_operation() {
    let error = DomError::new("document.createElement", "not a valid name".to_string());
    assert_eq!(error.message(), "document.createElement: not a valid name");
    assert_eq!(
        error.warning("a placeholder is used"),
        "[halyard] DOM operation failed: document.createElement: not a valid name\n  recovery: a placeholder is used"
    );
}
