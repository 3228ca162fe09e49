use halyard_tachys::ssr::{out_of_order_chunk, push_chunk_id, split_around_placeholder, FutureId, OooChunk, StreamBuilder, StreamChunk, StreamStep};
use halyard_tachys::view::Position;
use halyard_tachys::view_error::ViewError;
use std::collections::VecDeque;

#[test]
fn next_id_wraps_at_the_largest_id_instead_of_overflowing() {
    let mut builder = StreamBuilder::new(Some(vec![3, u16::MAX]));
    builder.next_id();
    assert_eq!(builder.clone_id(), Some(vec![3, 0]));
}

#[test]
fn next_id_increments_the_last_piece() {
    let mut builder = StreamBuilder::new(Some(vec![3, 7]));
    builder.next_id();
    assert_eq!(builder.clone_id(), Some(vec![3, 8]));
    assert_eq!(builder.child_id(), Some(vec![3, 8, 0]));

    let mut no_id = StreamBuilder::new(None);
    no_id.next_id();
    assert_eq!(no_id.clone_id(), None);
}

/// A view's length estimate is used as the initial capacity of the stream's buffer; an
/// estimate that cannot be allocated leaves the buffer empty.
#[test]
fn a_capacity_that_cannot_be_allocated_leaves_the_buffer_empty() {
    let mut builder = StreamBuilder::with_capacity(usize::MAX, None);
    builder.reserve(usize::MAX);
    builder.push_sync("fits");
    assert_eq!(builder.sync_buf, "fits");
}

#[test]
fn chunk_markers_spell_every_id_piece() {
    let mut builder = StreamBuilder::new(Some(vec![1, 22]));
    builder.write_chunk_marker(true);
    builder.write_chunk_marker(false);
    assert_eq!(builder.sync_buf, "<!--s-1-22-o--><!--s-1-22-c-->");
}

/// What the server does with a stream: sends what is ready, and hands each out-of-order
/// future what `resolve` says it gives. There are no in-order futures here. Returns the
/// HTML and what the stream reported.
fn drive_reporting(mut builder: StreamBuilder, resolve: impl Fn(FutureId) -> OooChunk) -> (String, Vec<ViewError>) {
    let mut out = String::new();
    let mut reports = Vec::new();
    for _ in 0..1000 {
        match builder.next_step() {
            StreamStep::Ready(text) => out.push_str(&text),
            StreamStep::Done => return (out, reports),
            StreamStep::PollOutOfOrder => {
                for future in builder.pending_out_of_order() {
                    if let Some(report) = builder.complete_out_of_order(future, resolve(future)) {
                        reports.push(report);
                    }
                }
                if let StreamStep::Ready(text) = builder.end_out_of_order_round() {
                    out.push_str(&text);
                }
            }
            StreamStep::AwaitInOrder(_) | StreamStep::Pending => panic!("nothing else is awaited here"),
        }
    }
    panic!("the stream did not end")
}

/// The HTML that `drive_reporting` streams.
fn drive(builder: StreamBuilder, resolve: impl Fn(FutureId) -> OooChunk) -> String {
    drive_reporting(builder, resolve).0
}

/// The out-of-order chunk `0-`, once its view has resolved to `resolved`.
fn resolved(_: FutureId) -> OooChunk {
    out_of_order_chunk(Some(vec![0]), Some("resolved"), Position::NextChild, false, None)
}

/// Streams what `before` writes, then an out-of-order chunk (for id `0-`) that resolves
/// to `resolved`, as a `<Suspense>` does after writing its fallback.
fn stream(before: impl FnOnce(&mut StreamBuilder)) -> String {
    let mut builder = StreamBuilder::new(Some(vec![0]));
    before(&mut builder);
    builder.push_async_out_of_order(FutureId(1));
    drive(builder.finish(), resolved)
}

#[test]
fn an_out_of_order_chunk_replaces_its_fallback_in_the_buffer() {
    let html = stream(|builder| {
        builder.push_sync("<p>");
        builder.push_fallback("loading", &mut Position::NextChild, false);
        builder.push_sync("</p>");
    });
    assert_eq!(html, "<p>resolved</p>");
}

/// Raw HTML can hold a comment that looks like a chunk's opening marker. With no closing
/// marker after it, the chunk is streamed as a template.
#[test]
fn an_opening_marker_without_a_closing_marker_streams_the_chunk_as_a_template() {
    let html = stream(|builder| builder.push_sync("<div><!--s-0-o--></div>"));
    assert!(html.starts_with("<div><!--s-0-o--></div>"), "{html}");
    assert!(html.contains("<template id=\"0-f\">resolved"), "{html}");
}

/// An opening marker with no closing marker after it is reported, with the chunk's id.
#[test]
fn an_unclosed_chunk_marker_is_reported() {
    let mut builder = StreamBuilder::new(Some(vec![0]));
    builder.push_sync("<!--s-0-o-->");
    builder.push_async_out_of_order(FutureId(1));
    let (html, reports) = drive_reporting(builder.finish(), resolved);
    assert!(html.starts_with("<!--s-0-o--><template id=\"0-f\">resolved</template>"), "{html}");
    assert!(matches!(&reports[..], [ViewError::UnclosedChunkMarker { id }] if id == "0-"));
}

/// A look-alike closing marker in front of the opening marker does not confuse the
/// replacement.
#[test]
fn a_closing_marker_before_the_opening_marker_does_not_confuse_the_replacement() {
    let html = stream(|builder| {
        builder.push_sync("<!--s-0-c-->");
        builder.push_fallback("loading", &mut Position::NextChild, false);
    });
    assert_eq!(html, "<!--s-0-c-->resolved");
}

/// The fallback of a chunk sits between its markers.
#[test]
fn a_fallback_is_written_between_the_chunk_markers() {
    let mut builder = StreamBuilder::new(Some(vec![2]));
    let mut position = Position::FirstChild;
    builder.push_fallback("wait", &mut position, false);
    assert_eq!(builder.sync_buf, "<!--s-2-o-->wait<!--s-2-c-->");
    assert_eq!(position, Position::NextChild);
}

/// The text around a fallback, found by its markers.
#[test]
fn split_around_placeholder_finds_the_text_around_a_fallback() {
    assert_eq!(split_around_placeholder("a<!--s-1-o-->b<!--s-1-c-->c", "1-"), Some(("a", "c")));
    assert_eq!(split_around_placeholder("a<!--s-1-c-->c", "1-"), None);
    assert_eq!(split_around_placeholder("a<!--s-1-o-->b", "1-"), None);
    assert_eq!(split_around_placeholder("<!--s-1-c--><!--s-1-o-->x<!--s-1-c-->y", "1-"), Some(("<!--s-1-c-->", "y")));
}

/// Finishing a stream joins the remaining text to the last text chunk.
#[test]
fn finishing_joins_the_text_to_the_last_text_chunk() {
    let mut builder = StreamBuilder::new(None);
    builder.push_sync("a");
    builder.push_async(FutureId(3));
    builder.push_sync("b");
    let mut finished = builder.finish();
    let chunks = finished.take_chunks();
    assert_eq!(chunks.len(), 3);
    assert!(matches!(&chunks[0], StreamChunk::Sync(text) if text == "a"));
    assert!(matches!(&chunks[1], StreamChunk::Async { chunks: FutureId(3) }));
    assert!(matches!(&chunks[2], StreamChunk::Sync(text) if text == "b"));
    assert!(finished.sync_buf.is_empty());

    let mut builder = StreamBuilder::new(None);
    builder.chunks.push_back(StreamChunk::Sync("c".to_string()));
    builder.push_sync("d");
    let mut finished = builder.finish();
    let chunks = finished.take_chunks();
    assert_eq!(chunks.len(), 1);
    assert!(matches!(&chunks[0], StreamChunk::Sync(text) if text == "cd"));
}

/// An in-order chunk waits: its text before it is sent first, then the stream waits for
/// the future, and what the future gives streams next.
#[test]
fn an_in_order_chunk_is_awaited_in_its_place() {
    let mut builder = StreamBuilder::new(None);
    builder.push_sync("a");
    builder.push_async(FutureId(9));
    builder.push_sync("c");
    let mut builder = builder.finish();
    assert!(matches!(builder.next_step(), StreamStep::Ready(text) if text == "a"));
    assert!(matches!(builder.next_step(), StreamStep::AwaitInOrder(FutureId(9))));
    let mut given = VecDeque::new();
    given.push_back(StreamChunk::Sync("b".to_string()));
    builder.resume_in_order(given);
    assert!(matches!(builder.next_step(), StreamStep::Ready(text) if text == "bc"));
    assert!(matches!(builder.next_step(), StreamStep::Done));
}

/// The script that puts a chunk in place names its id, and the template holds its HTML.
#[test]
fn a_chunk_template_names_its_id() {
    let mut buf = String::new();
    OooChunk::push_start("4-", &mut buf);
    assert_eq!(buf, "<template id=\"4-f\">");
    let mut end = String::new();
    OooChunk::push_end_with_nonce(false, "4-", &mut end, Some("n0"));
    assert!(end.starts_with("</template><script nonce=\"n0\">(function() { let id = \"4-\";"));
    assert!(end.ends_with("close.remove();open.remove();})()</script>"));
}

/// A chunk whose view is not there only removes its fallback's markers.
#[test]
fn a_chunk_without_its_view_removes_only_the_markers() {
    let chunk = out_of_order_chunk::<&str>(Some(vec![1, 2]), None, Position::FirstChild, false, Some("n".to_string()));
    let mut end = String::new();
    OooChunk::push_end_with_nonce(false, "1-2-", &mut end, Some("n"));
    let html = drive(
        {
            let mut builder = StreamBuilder::new(Some(vec![1, 2]));
            builder.push_fallback("wait", &mut Position::FirstChild, false);
            builder.push_async_out_of_order(FutureId(5));
            builder.finish()
        },
        move |_| out_of_order_chunk::<&str>(Some(vec![1, 2]), None, Position::FirstChild, false, None),
    );
    assert_eq!(html, "");
    assert!(chunk.take_chunks().is_empty());
    let mut id = String::new();
    push_chunk_id(&mut id, &[1, 2]);
    assert_eq!(id, "1-2-");
    assert!(end.contains("close.remove();open.remove();"));
}

/// The last piece of an id that wraps is reported; no other step is.
#[test]
fn next_id_reports_a_wrap_of_the_last_piece() {
    let mut builder = StreamBuilder::new(Some(vec![3, u16::MAX]));
    assert_eq!(builder.next_id(), Some(ViewError::ChunkIdWrapped));
    assert_eq!(builder.next_id(), None);
    assert_eq!(builder.clone_id(), Some(vec![3, 1]));

    let mut no_id = StreamBuilder::new(None);
    assert_eq!(no_id.next_id(), None);
}

/// A stream of text alone never waits: it sends all of its text, in order, at once, and
/// then ends for good.
#[test]
fn a_stream_of_text_sends_its_text_once_and_ends() {
    let mut builder = StreamBuilder::new(None);
    builder.chunks.push_back(StreamChunk::Sync("a".to_string()));
    builder.chunks.push_back(StreamChunk::Sync(String::new()));
    builder.chunks.push_back(StreamChunk::Sync("bc".to_string()));
    builder.push_sync("d");
    let mut builder = builder.finish();
    assert!(matches!(builder.next_step(), StreamStep::Ready(text) if text == "abcd"));
    assert!(matches!(builder.next_step(), StreamStep::Done));
    assert!(matches!(builder.next_step(), StreamStep::Done));

    // the text written since the last chunk goes first
    let mut unfinished = StreamBuilder::new(None);
    unfinished.chunks.push_back(StreamChunk::Sync("a".to_string()));
    unfinished.sync_buf.push_str("d");
    assert!(matches!(unfinished.next_step(), StreamStep::Ready(text) if text == "da"));
    assert!(matches!(unfinished.next_step(), StreamStep::Done));

    let mut empty = StreamBuilder::new(None);
    empty.chunks.push_back(StreamChunk::Sync(String::new()));
    assert!(matches!(empty.next_step(), StreamStep::Done));
}

/// The text chunks of a resolved out-of-order chunk replace its fallback in their order.
#[test]
fn the_text_of_an_out_of_order_chunk_keeps_its_order() {
    let mut builder = StreamBuilder::new(Some(vec![0]));
    builder.push_sync("<p>");
    builder.push_fallback("loading", &mut Position::NextChild, false);
    builder.push_sync("</p>");
    builder.push_async_out_of_order(FutureId(1));
    let html = drive(builder.finish(), |_| {
        let mut chunks = VecDeque::new();
        chunks.push_back(StreamChunk::Sync("x".to_string()));
        chunks.push_back(StreamChunk::Sync("y".to_string()));
        chunks.push_back(StreamChunk::Sync("z".to_string()));
        OooChunk::new("0-".to_string(), chunks, false, None)
    });
    assert_eq!(html, "<p>xyz</p>");
}
