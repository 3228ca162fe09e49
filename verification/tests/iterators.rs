use halyard_tachys::iterators::StaticVec;
use halyard_tachys::view::{HtmlLen, Position, RenderHtml};

/// A view that estimates its length as `usize::MAX`.
struct HugeView;

impl HtmlLen for HugeView {
    fn html_len(&self) -> usize {
        usize::MAX
    }
}

#[test]
fn option_html_len_saturates() {
    assert_eq!(Some(HugeView).html_len(), usize::MAX);
    assert_eq!(None::<HugeView>.html_len(), 3);
    assert_eq!(Some("ab").html_len(), 5);
}

#[test]
fn vec_html_len_saturates() {
    assert_eq!(vec![HugeView].html_len(), usize::MAX);
    assert_eq!(vec![HugeView, HugeView].html_len(), usize::MAX);
    assert_eq!(vec!["ab", "c"].html_len(), 6);
}

#[test]
fn static_vec_html_len_saturates() {
    assert_eq!(StaticVec::from(vec![HugeView]).html_len(), usize::MAX);
    assert_eq!(StaticVec::from(vec![HugeView, HugeView]).html_len(), usize::MAX);
    assert_eq!(StaticVec::from(vec!["ab", "c"]).html_len(), 6);
}

#[test]
fn array_html_len_saturates() {
    assert_eq!([HugeView, HugeView].html_len(), usize::MAX);
    assert_eq!(["ab", "c"].html_len(), 3);
}

/// A list writes its items in order and a marker after them; adjacent texts are kept
/// apart.
#[test]
fn a_vec_writes_its_items_then_a_marker() {
    let mut buf = String::new();
    let mut position = Position::FirstChild;
    vec!["a", "b"].to_html_with_buf(&mut buf, &mut position, true, false);
    assert_eq!(buf, "a<!>b<!>");
    let mut empty = String::new();
    let mut position = Position::FirstChild;
    Vec::<&str>::new().to_html_with_buf(&mut empty, &mut position, true, false);
    assert_eq!(empty, "<!>");
}

/// A static list writes its items in order, and iterates over them in order.
#[test]
fn a_static_vec_iterates_in_order() {
    let list = StaticVec::from(vec!["x", "y", "z"]);
    let items: Vec<&&str> = list.iter().collect();
    assert_eq!(items, [&"x", &"y", &"z"]);
}
