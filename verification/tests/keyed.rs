use halyard_tachys::keyed::{keyed, Keyed, SerializableKey};
use halyard_tachys::list_diff::ListError;
use halyard_tachys::ssr::StreamBuilder;
use halyard_tachys::view::{HtmlLen, Position, RenderHtml};

#[test]
fn ser_key_without_islands_is_empty() {
    let (key, report) = 7u8.ser_key();
    assert_eq!(key, "");
    assert_eq!(report, Some(ListError::SerializableKeyWithoutIslands));
}

fn set_index(_: usize) {}

fn two_items() -> Keyed<u8, impl Fn(&u8) -> u8, impl Fn(usize, u8) -> (fn(usize), String), String> {
    keyed(vec![1, 2], |key: &u8| *key, |_, item: u8| (set_index as fn(usize), item.to_string()))
}

const MARKED: &str = "<!--bo-for--><!--bo-item--->1<!--bc-item---><!--bo-item--->2\
                      <!--bc-item---><!--bc-for--><!>";

#[test]
fn server_html_marks_each_item_when_asked() {
    let mut buf = String::new();
    two_items().to_html_with_buf(&mut buf, &mut Position::FirstChild, true, true);
    assert_eq!(buf, MARKED);

    let mut buf = String::new();
    two_items().to_html_with_buf(&mut buf, &mut Position::FirstChild, true, false);
    assert_eq!(buf, "12<!>");
}

#[test]
fn streamed_html_marks_each_item_when_asked() {
    let mut buf = StreamBuilder::new(None);
    two_items().to_html_async_with_buf(&mut buf, &mut Position::FirstChild, true, true);
    assert_eq!(buf.sync_buf, MARKED);
}

/// An empty keyed list writes only its marker; its estimate is 0.
#[test]
fn an_empty_keyed_list_writes_its_marker() {
    let list = keyed(Vec::<u8>::new(), |key: &u8| *key, |_, item: u8| (set_index as fn(usize), item.to_string()));
    assert_eq!(list.html_len(), 0);
    let mut buf = String::new();
    list.to_html_with_buf(&mut buf, &mut Position::FirstChild, true, false);
    assert_eq!(buf, "<!>");
}
