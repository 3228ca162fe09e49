//! The HTML stream of a server response: text that is ready, chunks that wait for a future
//! in order, and chunks that stream out of order, each replacing its fallback once it is
//! ready.
//!
//! The stream holds the futures it waits for by handle ([`FutureId`]); the server awaits
//! them and hands back what they give. What the stream does in between is decided here.

use crate::text::{decimal, occurs_at, push_decimal, push_text, reserve_text, split_once};
use crate::view::{Position, RenderHtml};
use crate::view_error::ViewError;
use std::collections::VecDeque;
use vstd::prelude::*;

verus! {

/// A future that the server awaits for the stream; the stream holds it by this handle.
#[derive(Clone, Copy, Debug, PartialEq, Eq, Hash)]
pub struct FutureId(pub u64);

/// A chunk of the HTML stream.
#[derive(Debug)]
pub enum StreamChunk {
    /// Some synchronously-available HTML.
    Sync(String),
    /// Chunks that a future gives, streamed in order.
    Async {
        /// The future.
        chunks: FutureId,
    },
    /// A chunk that a future gives, streamed out of order.
    OutOfOrder {
        /// The future.
        chunks: FutureId,
    },
}

/// A chunk, with its text as characters.
pub enum ChunkView {
    Sync(Seq<char>),
    Async(FutureId),
    OutOfOrder(FutureId),
}

/// The view of a chunk.
pub open spec fn chunk_view(chunk: StreamChunk) -> ChunkView {
    match chunk {
        StreamChunk::Sync(text) => ChunkView::Sync(text@),
        StreamChunk::Async { chunks } => ChunkView::Async(chunks),
        StreamChunk::OutOfOrder { chunks } => ChunkView::OutOfOrder(chunks),
    }
}

/// The views of `chunks`.
pub open spec fn chunk_views(chunks: Seq<StreamChunk>) -> Seq<ChunkView> {
    chunks.map_values(|chunk: StreamChunk| chunk_view(chunk))
}

/// The state of a stream.
pub struct StreamState {
    /// The text written since the last chunk.
    pub sync_buf: Seq<char>,
    /// The chunks to stream, in order.
    pub chunks: Seq<ChunkView>,
    /// The in-order future the stream waits for.
    pub pending: Option<FutureId>,
    /// The out-of-order futures the stream waits for, in the order they were met.
    pub pending_ooo: Seq<FutureId>,
    /// The id of the current out-of-order chunk, piece by piece.
    pub id: Option<Seq<u16>>,
}

/// The view of a chunk id.
pub open spec fn id_view(id: Option<Vec<u16>>) -> Option<Seq<u16>> {
    match id {
        Some(pieces) => Some(pieces@),
        None => None,
    }
}

/// Manages streaming HTML rendering for the response to a single request.
#[derive(Debug)]
pub struct StreamBuilder {
    /// The text written since the last chunk.
    pub sync_buf: String,
    /// The chunks to stream, in order.
    pub chunks: VecDeque<StreamChunk>,
    pending: Option<FutureId>,
    pending_ooo: VecDeque<FutureId>,
    id: Option<Vec<u16>>,
}

impl View for StreamBuilder {
    type V = StreamState;

    closed spec fn view(&self) -> StreamState {
        StreamState {
            sync_buf: self.sync_buf@,
            chunks: chunk_views(self.chunks@),
            pending: self.pending,
            pending_ooo: self.pending_ooo@,
            id: id_view(self.id),
        }
    }
}

/// The stream after the text written since the last chunk becomes a chunk of its own.
pub open spec fn flushed(s: StreamState) -> StreamState {
    if s.sync_buf.len() == 0 {
        s
    } else {
        StreamState { sync_buf: seq![], chunks: s.chunks.push(ChunkView::Sync(s.sync_buf)), ..s }
    }
}

/// The stream after it is completed: the text written since the last chunk joins the last
/// chunk if that is text, or becomes a chunk of its own.
pub open spec fn finished(s: StreamState) -> StreamState {
    if s.sync_buf.len() == 0 {
        s
    } else if s.chunks.len() > 0 && s.chunks.last() is Sync {
        StreamState {
            sync_buf: seq![],
            chunks: s.chunks.update(s.chunks.len() - 1, ChunkView::Sync(s.chunks.last()->Sync_0 + s.sync_buf)),
            ..s
        }
    } else {
        flushed(s)
    }
}

/// The id after the next out-of-order chunk's: the last piece counts up, from the largest
/// piece back to 0.
pub open spec fn next_id_of(id: Option<Seq<u16>>) -> Option<Seq<u16>> {
    match id {
        Some(pieces) => if pieces.len() == 0 {
            Some(pieces)
        } else {
            Some(
                pieces.update(
                    pieces.len() - 1,
                    if pieces.last() == u16::MAX {
                        0
                    } else {
                        (pieces.last() + 1) as u16
                    },
                ),
            )
        },
        None => None,
    }
}

/// An out-of-order chunk id as markers and scripts spell it: each piece in decimal, then `-`.
pub open spec fn chunk_id_text(id: Seq<u16>) -> Seq<char>
    decreases id.len(),
{
    if id.len() == 0 {
        seq![]
    } else {
        chunk_id_text(id.drop_last()) + decimal(id.last() as nat) + seq!['-']
    }
}

/// The marker that opens (or closes) the fallback of the out-of-order chunk `id`.
pub open spec fn chunk_marker(id: Seq<u16>, opening: bool) -> Seq<char> {
    seq!['<', '!', '-', '-', 's', '-'] + chunk_id_text(id) + if opening {
        seq!['o', '-', '-', '>']
    } else {
        seq!['c', '-', '-', '>']
    }
}

/// A copy of `pieces`.
fn copy_pieces(pieces: &Vec<u16>) -> (copy: Vec<u16>)
    ensures
        copy@ == pieces@,
{
    let mut copy: Vec<u16> = Vec::new();
    let mut i: usize = 0;
    while i < pieces.len()
        invariant
            i <= pieces@.len(),
            copy@ == pieces@.take(i as int),
        decreases pieces.len() - i,
    {
        copy.push(pieces[i]);
        i += 1;
        proof {
            assert(pieces@.take(i as int) == pieces@.take(i - 1).push(pieces@[i - 1]));
        }
    }
    assert(pieces@.take(pieces@.len() as int) == pieces@);
    copy
}

/// Writes an out-of-order chunk id as the markers and the replacement script spell it:
/// `{piece}-` for each piece.
pub fn push_chunk_id(buf: &mut String, id: &[u16])
    ensures
        final(buf)@ == old(buf)@ + chunk_id_text(id@),
{
    let ghost start = buf@;
    let mut i: usize = 0;
    while i < id.len()
        invariant
            i <= id@.len(),
            buf@ == start + chunk_id_text(id@.take(i as int)),
            start == old(buf)@,
        decreases id.len() - i,
    {
        let ghost before = buf@;
        push_decimal(buf, id[i] as u64);
        push_text(buf, "-");
        proof {
            reveal_strlit("-");
            let taken = id@.take(i + 1);
            assert(taken.drop_last() == id@.take(i as int));
            assert(taken.last() == id@[i as int]);
            assert(buf@ == start + chunk_id_text(taken));
        }
        i += 1;
    }
    assert(id@.take(id@.len() as int) == id@);
}

impl StreamBuilder {
    /// Creates a new HTML stream.
    pub fn new(id: Option<Vec<u16>>) -> (builder: Self)
        ensures
            builder@ == (StreamState {
                sync_buf: seq![],
                chunks: seq![],
                pending: None,
                pending_ooo: seq![],
                id: id_view(id),
            }),
    {
        Self::with_capacity(0, id)
    }

    /// Creates a new stream with a given capacity in the synchronous buffer and an
    /// identifier. The capacity is a hint: if it cannot be allocated, the buffer starts
    /// empty and grows as it is written.
    pub fn with_capacity(capacity: usize, id: Option<Vec<u16>>) -> (builder: Self)
        ensures
            builder@ == (StreamState {
                sync_buf: seq![],
                chunks: seq![],
                pending: None,
                pending_ooo: seq![],
                id: id_view(id),
            }),
    {
        let mut builder = StreamBuilder {
            sync_buf: String::new(),
            chunks: VecDeque::new(),
            pending: None,
            pending_ooo: VecDeque::new(),
            id,
        };
        builder.reserve(capacity);
        proof {
            assert(chunk_views(builder.chunks@) =~= seq![]);
        }
        builder
    }

    /// Reserves additional space in the synchronous buffer. A hint: if it cannot be
    /// allocated, the buffer grows as it is written instead.
    pub fn reserve(&mut self, additional: usize)
        ensures
            final(self)@ == old(self)@,
    {
        reserve_text(&mut self.sync_buf, additional);
    }

    /// Pushes text into the synchronous buffer.
    pub fn push_sync(&mut self, string: &str)
        ensures
            final(self)@ == (StreamState { sync_buf: old(self)@.sync_buf + string@, ..old(self)@ }),
    {
        push_text(&mut self.sync_buf, string);
    }

    /// Makes the text written since the last chunk a chunk of its own, if there is any.
    fn flush_sync(&mut self)
        ensures
            final(self)@ == flushed(old(self)@),
    {
        if !self.sync_buf.as_str().is_empty() {
            let mut sync = String::new();
            std::mem::swap(&mut sync, &mut self.sync_buf);
            let ghost before = self.chunks@;
            self.chunks.push_back(StreamChunk::Sync(sync));
            proof {
                assert(chunk_views(self.chunks@) =~= chunk_views(before).push(ChunkView::Sync(old(self)@.sync_buf)));
            }
        }
    }

    /// Pushes a chunk that the future `chunks` gives, streamed in order.
    pub fn push_async(&mut self, chunks: FutureId)
        ensures
            final(self)@ == (StreamState {
                chunks: flushed(old(self)@).chunks.push(ChunkView::Async(chunks)),
                ..flushed(old(self)@)
            }),
    {
        self.flush_sync();
        let ghost before = self.chunks@;
        self.chunks.push_back(StreamChunk::Async { chunks });
        proof {
            assert(chunk_views(self.chunks@) =~= chunk_views(before).push(ChunkView::Async(chunks)));
        }
    }

    /// Takes all chunks currently available in the stream, including the synchronous
    /// buffer.
    pub fn take_chunks(&mut self) -> (taken: VecDeque<StreamChunk>)
        ensures
            chunk_views(taken@) == flushed(old(self)@).chunks,
            final(self)@ == (StreamState { chunks: seq![], ..flushed(old(self)@) }),
    {
        self.flush_sync();
        let mut taken = VecDeque::new();
        std::mem::swap(&mut taken, &mut self.chunks);
        proof {
            assert(chunk_views(self.chunks@) =~= seq![]);
        }
        taken
    }

    /// Appends another stream to this one: its chunks after these, and its text after
    /// them.
    pub fn append(&mut self, other: StreamBuilder)
        ensures
            final(self)@ == (StreamState {
                sync_buf: other@.sync_buf,
                chunks: flushed(old(self)@).chunks + other@.chunks,
                ..old(self)@
            }),
    {
        self.flush_sync();
        let mut other = other;
        let ghost before = self.chunks@;
        let ghost theirs = other.chunks@;
        self.chunks.append(&mut other.chunks);
        push_text(&mut self.sync_buf, other.sync_buf.as_str());
        proof {
            assert(chunk_views(self.chunks@) =~= chunk_views(before) + chunk_views(theirs));
        }
    }

    /// Completes the stream: the text written since the last chunk joins the last chunk if
    /// that is text, or becomes a chunk of its own.
    pub fn finish(self) -> (finished_stream: Self)
        ensures
            finished_stream@ == finished(self@),
    {
        let mut this = self;
        let mut remaining = String::new();
        std::mem::swap(&mut remaining, &mut this.sync_buf);
        if remaining.as_str().is_empty() {
            proof {
                assert(this.sync_buf@ =~= self.sync_buf@);
                assert(this@ == self@);
            }
            return this;
        }
        let ghost before = this.chunks@;
        let last = this.chunks.pop_back();
        match last {
            Some(StreamChunk::Sync(text)) => {
                let mut text = text;
                push_text(&mut text, remaining.as_str());
                this.chunks.push_back(StreamChunk::Sync(text));
                proof {
                    assert(chunk_views(this.chunks@) =~= chunk_views(before).update(
                        before.len() - 1,
                        ChunkView::Sync(chunk_view(before.last())->Sync_0 + remaining@),
                    ));
                }
            },
            Some(other) => {
                this.chunks.push_back(other);
                this.chunks.push_back(StreamChunk::Sync(remaining));
                proof {
                    assert(this.chunks@ =~= before.push(StreamChunk::Sync(remaining)));
                    assert(chunk_views(this.chunks@) =~= chunk_views(before).push(ChunkView::Sync(remaining@)));
                }
            },
            None => {
                this.chunks.push_back(StreamChunk::Sync(remaining));
                proof {
                    assert(chunk_views(this.chunks@) =~= chunk_views(before).push(ChunkView::Sync(remaining@)));
                }
            },
        }
        this
    }

    /// Pushes a fallback for out-of-order streaming, between the markers of the current
    /// out-of-order chunk.
    pub fn push_fallback<V: RenderHtml>(&mut self, fallback: V, position: &mut Position, mark_branches: bool)
        ensures
            final(self)@ == (StreamState {
                sync_buf: old(self)@.sync_buf + match old(self)@.id {
                    Some(id) => chunk_marker(id, true),
                    None => seq![],
                } + fallback.html(*old(position), true, mark_branches) + match old(self)@.id {
                    Some(id) => chunk_marker(id, false),
                    None => seq![],
                },
                ..old(self)@
            }),
            *final(position) == Position::NextChild,
    {
        self.write_chunk_marker(true);
        fallback.to_html_with_buf(&mut self.sync_buf, position, true, mark_branches);
        self.write_chunk_marker(false);
        *position = Position::NextChild;
    }

    /// Counts the id up to the next out-of-order chunk's. After the largest piece (65535)
    /// the last piece wraps around to 0: ids only have to differ between chunks that are
    /// pending at the same time, and a chunk that has been streamed has removed its markers.
    /// A wrap is returned, for the server to log.
    pub fn next_id(&mut self) -> (wrapped: Option<ViewError>)
        ensures
            final(self)@ == (StreamState { id: next_id_of(old(self)@.id), ..old(self)@ }),
            wrapped is Some <==> (old(self)@.id matches Some(pieces) && pieces.len() > 0 && pieces.last() == u16::MAX),
            wrapped matches Some(e) ==> e == ViewError::ChunkIdWrapped,
    {
        let id = self.id.take();
        let mut wrapped = None;
        match id {
            Some(mut pieces) => {
                let n = pieces.len();
                if n > 0 {
                    let last = pieces[n - 1];
                    let next: u16 = if last == u16::MAX {
                        wrapped = Some(ViewError::ChunkIdWrapped);
                        0
                    } else {
                        last + 1
                    };
                    pieces.set(n - 1, next);
                }
                self.id = Some(pieces);
            },
            None => {},
        }
        wrapped
    }

    /// Returns the current id.
    pub fn clone_id(&self) -> (id: Option<Vec<u16>>)
        ensures
            id_view(id) == self@.id,
    {
        match &self.id {
            Some(pieces) => Some(copy_pieces(pieces)),
            None => None,
        }
    }

    /// Returns an id that is a child of the current one.
    pub fn child_id(&self) -> (id: Option<Vec<u16>>)
        ensures
            id_view(id) == match self@.id {
                Some(pieces) => Some(pieces.push(0)),
                None => None,
            },
    {
        match &self.id {
            Some(pieces) => {
                let mut child = copy_pieces(pieces);
                child.push(0);
                Some(child)
            },
            None => None,
        }
    }

    /// Inserts a marker for the current out-of-order chunk.
    pub fn write_chunk_marker(&mut self, opening: bool)
        ensures
            final(self)@ == (StreamState {
                sync_buf: old(self)@.sync_buf + match old(self)@.id {
                    Some(id) => chunk_marker(id, opening),
                    None => seq![],
                },
                ..old(self)@
            }),
    {
        match &self.id {
            Some(id) => {
                // two characters a piece and the marker around them, saturated: only a hint
                let pieces = id.len();
                let hint = if pieces > (usize::MAX - 11) / 2 {
                    usize::MAX
                } else {
                    pieces * 2 + 11
                };
                reserve_text(&mut self.sync_buf, hint);
                push_text(&mut self.sync_buf, "<!--s-");
                push_chunk_id(&mut self.sync_buf, id.as_slice());
                if opening {
                    push_text(&mut self.sync_buf, "o-->");
                } else {
                    push_text(&mut self.sync_buf, "c-->");
                }
                proof {
                    reveal_strlit("<!--s-");
                    reveal_strlit("o-->");
                    reveal_strlit("c-->");
                    assert(self.sync_buf@ =~= old(self)@.sync_buf + chunk_marker(id@, opening));
                }
            },
            None => {
                assert(self.sync_buf@ =~= old(self)@.sync_buf + Seq::<char>::empty());
            },
        }
    }

    /// Pushes a chunk that the future `chunks` gives, streamed out of order.
    pub fn push_async_out_of_order(&mut self, chunks: FutureId)
        ensures
            final(self)@ == (StreamState {
                chunks: old(self)@.chunks.push(ChunkView::OutOfOrder(chunks)),
                ..old(self)@
            }),
    {
        let ghost before = self.chunks@;
        self.chunks.push_back(StreamChunk::OutOfOrder { chunks });
        proof {
            assert(chunk_views(self.chunks@) =~= chunk_views(before).push(ChunkView::OutOfOrder(chunks)));
        }
    }
}

/// The start of the script that puts an out-of-order chunk in place, up to its id.
pub const SCRIPT_START: &'static str = "<script>(function() { let id = \"";

/// The start of the script with a nonce, from the nonce on, up to its id.
pub const NONCE_SCRIPT_START: &'static str = "\">(function() { let id = \"";

/// The opening of the script tag with a nonce, up to the nonce.
pub const NONCE_SCRIPT_OPEN: &'static str = "<script nonce=\"";

/// The part of the script that finds the chunk's markers.
pub const SCRIPT_FIND_MARKERS: &'static str = "\";let open = undefined;let close = undefined;let walker = \
     document.createTreeWalker(document.body, \
     NodeFilter.SHOW_COMMENT);while(walker.nextNode()) \
     {if(walker.currentNode.textContent == `s-${id}o`){ \
     open=walker.currentNode; } else \
     if(walker.currentNode.textContent == `s-${id}c`) { close = \
     walker.currentNode;}}let range = new Range(); \
     range.setStartBefore(open); range.setEndBefore(close);";

/// The part of the script that replaces the fallback with the chunk.
pub const SCRIPT_REPLACE: &'static str = "range.deleteContents(); let tpl = \
     document.getElementById(`${id}f`); \
     close.parentNode.insertBefore(tpl.content.cloneNode(true), \
     close);close.remove();";

/// The part of the script that only removes the markers.
pub const SCRIPT_REMOVE_MARKERS: &'static str = "close.remove();open.remove();";

/// The end of the script.
pub const SCRIPT_END: &'static str = "})()</script>";

/// The opening `<template>` tag of the out-of-order chunk `id`.
pub open spec fn template_start(id: Seq<char>) -> Seq<char> {
    "<template id=\""@ + id + seq!['f'] + "\">"@
}

/// The closing `</template>` tag and the script that puts the out-of-order chunk `id` in
/// place.
pub open spec fn template_end(replace: bool, id: Seq<char>, nonce: Option<Seq<char>>) -> Seq<char> {
    "</template>"@ + match nonce {
        Some(nonce) => NONCE_SCRIPT_OPEN@ + nonce + NONCE_SCRIPT_START@,
        None => SCRIPT_START@,
    } + id + SCRIPT_FIND_MARKERS@ + if replace {
        SCRIPT_REPLACE@
    } else {
        SCRIPT_REMOVE_MARKERS@
    } + SCRIPT_END@
}

/// The script that ends an out-of-order chunk swaps the chunk in exactly when it replaces
/// its fallback: for a chunk whose view is there, the script, once it has found the chunk's
/// markers, deletes what lies between them and inserts the template's content before the
/// closing marker; for one without, it only removes the two markers. The two scripts differ
/// at the first character after the markers are found, whatever the id and the nonce.
pub proof fn lemma_template_end_swaps_in(id: Seq<char>, nonce: Option<Seq<char>>)
    ensures
        ({
            let opening = match nonce {
                Some(n) => "<script nonce=\""@ + n + "\">(function() { let id = \""@,
                None => "<script>(function() { let id = \""@,
            };
            let found = "</template>"@ + opening + id + SCRIPT_FIND_MARKERS@;
            &&& template_end(true, id, nonce) == found + SCRIPT_REPLACE@ + "})()</script>"@
            &&& template_end(false, id, nonce) == found + "close.remove();open.remove();"@ + "})()</script>"@
            &&& template_end(true, id, nonce)[found.len() as int] == 'r'
            &&& template_end(false, id, nonce)[found.len() as int] == 'c'
            &&& template_end(true, id, nonce) != template_end(false, id, nonce)
        }),
{
    reveal_strlit("<script nonce=\"");
    reveal_strlit("\">(function() { let id = \"");
    reveal_strlit("<script>(function() { let id = \"");
    reveal_strlit("close.remove();open.remove();");
    reveal_strlit("})()</script>");
    reveal_strlit("range.deleteContents(); let tpl = \
     document.getElementById(`${id}f`); \
     close.parentNode.insertBefore(tpl.content.cloneNode(true), \
     close);close.remove();");
    let opening = match nonce {
        Some(n) => "<script nonce=\""@ + n + "\">(function() { let id = \""@,
        None => "<script>(function() { let id = \""@,
    };
    let found = "</template>"@ + opening + id + SCRIPT_FIND_MARKERS@;
    assert(template_end(true, id, nonce) =~= found + SCRIPT_REPLACE@ + "})()</script>"@);
    assert(template_end(false, id, nonce) =~= found + "close.remove();open.remove();"@ + "})()</script>"@);
    assert(template_end(true, id, nonce)[found.len() as int] == SCRIPT_REPLACE@[0]);
    assert(template_end(false, id, nonce)[found.len() as int] == "close.remove();open.remove();"@[0]);
}

/// A chunk of the out-of-order stream: what a future gave for the out-of-order chunk `id`,
/// whether it replaces the chunk's fallback, and the nonce for its script.
#[derive(Debug)]
pub struct OooChunk {
    id: String,
    chunks: VecDeque<StreamChunk>,
    replace: bool,
    nonce: Option<String>,
}

impl OooChunk {
    /// The chunk `id` made of `chunks`.
    pub fn new(id: String, chunks: VecDeque<StreamChunk>, replace: bool, nonce: Option<String>) -> (chunk: Self)
        ensures
            chunk.id() == id@,
            chunk.chunks() == chunk_views(chunks@),
            chunk.replace() == replace,
            chunk.nonce() == match nonce {
                Some(n) => Some(n@),
                None => None::<Seq<char>>,
            },
    {
        OooChunk { id, chunks, replace, nonce }
    }

    /// The chunk's id, as its markers spell it.
    pub closed spec fn id(&self) -> Seq<char> {
        self.id@
    }

    /// The chunks the future gave.
    pub closed spec fn chunks(&self) -> Seq<ChunkView> {
        chunk_views(self.chunks@)
    }

    /// Whether the chunks replace the fallback (rather than only removing its markers).
    pub closed spec fn replace(&self) -> bool {
        self.replace
    }

    /// The nonce for the script.
    pub closed spec fn nonce(&self) -> Option<Seq<char>> {
        match self.nonce {
            Some(n) => Some(n@),
            None => None,
        }
    }

    /// Pushes an opening `<template>` tag into the buffer.
    pub fn push_start(id: &str, buf: &mut String)
        ensures
            final(buf)@ == old(buf)@ + template_start(id@),
    {
        push_text(buf, "<template id=\"");
        push_text(buf, id);
        push_text(buf, "f");
        push_text(buf, "\">");
        proof {
            reveal_strlit("f");
        }
    }

    /// Pushes a closing `</template>` and the update script into the buffer.
    pub fn push_end(replace: bool, id: &str, buf: &mut String)
        ensures
            final(buf)@ == old(buf)@ + template_end(replace, id@, None),
    {
        Self::push_end_with_nonce(replace, id, buf, None);
    }

    /// Pushes a closing `</template>` and the update script, with the given nonce, into the
    /// buffer.
    pub fn push_end_with_nonce(replace: bool, id: &str, buf: &mut String, nonce: Option<&str>)
        ensures
            final(buf)@ == old(buf)@ + template_end(
                replace,
                id@,
                match nonce {
                    Some(n) => Some(n@),
                    None => None,
                },
            ),
    {
        let ghost start = buf@;
        push_text(buf, "</template>");
        match nonce {
            Some(nonce) => {
                push_text(buf, NONCE_SCRIPT_OPEN);
                push_text(buf, nonce);
                push_text(buf, NONCE_SCRIPT_START);
            },
            None => {
                push_text(buf, SCRIPT_START);
            },
        }
        push_text(buf, id);
        push_text(buf, SCRIPT_FIND_MARKERS);
        if replace {
            push_text(buf, SCRIPT_REPLACE);
        } else {
            push_text(buf, SCRIPT_REMOVE_MARKERS);
        }
        push_text(buf, SCRIPT_END);
        proof {
            let n = match nonce {
                Some(n) => Some(n@),
                None => None,
            };
            assert(buf@ =~= start + template_end(replace, id@, n));
        }
    }

    /// Consumes the chunk and returns what the future gave.
    pub fn take_chunks(self) -> (chunks: VecDeque<StreamChunk>)
        ensures
            chunk_views(chunks@) == self.chunks(),
    {
        self.chunks
    }
}

/// The chunks that a view's HTML `html` streams as: one text chunk, or none for no text.
pub open spec fn text_chunks(html: Seq<char>) -> Seq<ChunkView> {
    if html.len() == 0 {
        seq![]
    } else {
        seq![ChunkView::Sync(html)]
    }
}

/// What the out-of-order chunk `id` becomes once its view is ready: its id as the markers
/// spell it; the view rendered, escaped, from `position`, where the fallback was; whether
/// it replaces the fallback (only a view that is there does: for none, the fallback's
/// markers are only removed); and the nonce for its script.
///
/// The server awaits the view, calls this, and awaits the chunks that wait in turn, which
/// a view that only writes text has none of.
pub fn out_of_order_chunk<V: RenderHtml>(
    id: Option<Vec<u16>>,
    view: Option<V>,
    position: Position,
    mark_branches: bool,
    nonce: Option<String>,
) -> (chunk: OooChunk)
    ensures
        chunk.id() == match id_view(id) {
            Some(pieces) => chunk_id_text(pieces),
            None => Seq::<char>::empty(),
        },
        chunk.replace() == view is Some,
        chunk.nonce() == match nonce {
            Some(n) => Some(n@),
            None => None::<Seq<char>>,
        },
        chunk.chunks() == match view {
            Some(v) => text_chunks(v.html(position, true, mark_branches)),
            None => Seq::<ChunkView>::empty(),
        },
{
    let mut text = String::new();
    match &id {
        Some(pieces) => push_chunk_id(&mut text, pieces.as_slice()),
        None => {},
    }
    // the view renders as a child of the chunk
    let child = match &id {
        Some(pieces) => {
            let mut child = copy_pieces(pieces);
            child.push(0);
            Some(child)
        },
        None => None,
    };
    let mut builder = StreamBuilder::new(child);
    let replace = view.is_some();
    let mut position = position;
    let ghost start = position;
    match view {
        Some(view) => view.to_html_async_with_buf(&mut builder, &mut position, true, mark_branches),
        None => {},
    }
    let mut finished_stream = builder.finish();
    let chunks = finished_stream.take_chunks();
    proof {
        assert(text@ =~= match id_view(id) {
            Some(pieces) => chunk_id_text(pieces),
            None => Seq::<char>::empty(),
        });
    }
    OooChunk::new(text, chunks, replace, nonce)
}

/// The marker that opens (or closes) the fallback of the out-of-order chunk whose id is
/// spelled `id`.
pub open spec fn marker_text(id: Seq<char>, opening: bool) -> Seq<char> {
    "<!--s-"@ + id + if opening {
        "o-->"@
    } else {
        "c-->"@
    }
}

/// The marker that opens (or closes) the fallback of the out-of-order chunk `id`.
fn marker(id: &str, opening: bool) -> (text: String)
    ensures
        text@ == marker_text(id@, opening),
{
    let mut text = String::new();
    push_text(&mut text, "<!--s-");
    push_text(&mut text, id);
    if opening {
        push_text(&mut text, "o-->");
    } else {
        push_text(&mut text, "c-->");
    }
    text
}

/// Where the fallback of an out-of-order chunk is in a buffer.
pub enum PlaceholderSplit<'a> {
    /// The text before its opening marker, and the text after the closing marker that
    /// follows.
    Found(&'a str, &'a str),
    /// The opening marker is not in the buffer: the chunk was streamed already.
    NoOpening,
    /// No closing marker follows the opening marker: the markers are malformed.
    NoClosing,
}

/// Whether `pat` does not occur in `s` before `end`.
pub open spec fn absent_before(s: Seq<char>, pat: Seq<char>, end: int) -> bool {
    forall|j: int| 0 <= j < end ==> !occurs_at(s, pat, j)
}

/// Whether `before` and `after` surround the fallback of the chunk `id` in `buf`: the
/// first opening marker, and the first closing marker after it.
pub open spec fn surrounds(buf: Seq<char>, id: Seq<char>, before: Seq<char>, after: Seq<char>) -> bool {
    exists|fallback: Seq<char>|
        {
            &&& buf == before + marker_text(id, true) + fallback + marker_text(id, false) + after
            &&& absent_before(buf, marker_text(id, true), before.len() as int)
            &&& absent_before(
                fallback + marker_text(id, false) + after,
                marker_text(id, false),
                fallback.len() as int,
            )
        }
}

/// A fallback written between the markers of the out-of-order chunk `id`, as
/// `StreamBuilder::push_fallback` writes it after the text `before` and before the text
/// `after`, is found again by those markers (and the chunk then replaces it), as long as no
/// opening marker of the chunk starts before the fallback's own and the fallback holds no
/// closing marker of the chunk.
pub proof fn lemma_fallback_is_found(before: Seq<char>, id: Seq<u16>, fallback: Seq<char>, after: Seq<char>)
    requires
        absent_before(
            before + chunk_marker(id, true) + fallback + chunk_marker(id, false) + after,
            chunk_marker(id, true),
            before.len() as int,
        ),
        absent_before(fallback + chunk_marker(id, false) + after, chunk_marker(id, false), fallback.len() as int),
    ensures
        surrounds(
            before + chunk_marker(id, true) + fallback + chunk_marker(id, false) + after,
            chunk_id_text(id),
            before,
            after,
        ),
{
    reveal_strlit("<!--s-");
    reveal_strlit("o-->");
    reveal_strlit("c-->");
    assert(chunk_marker(id, true) =~= marker_text(chunk_id_text(id), true));
    assert(chunk_marker(id, false) =~= marker_text(chunk_id_text(id), false));
    let buf = before + chunk_marker(id, true) + fallback + chunk_marker(id, false) + after;
    assert(buf == before + marker_text(chunk_id_text(id), true) + fallback + marker_text(chunk_id_text(id), false)
        + after);
}

/// Finds the fallback of the out-of-order chunk `id` in `buf`.
pub fn locate_placeholder<'a>(buf: &'a str, id: &str) -> (split: PlaceholderSplit<'a>)
    ensures
        match split {
            PlaceholderSplit::Found(before, after) => surrounds(buf@, id@, before@, after@),
            PlaceholderSplit::NoOpening => absent_before(buf@, marker_text(id@, true), buf@.len() as int + 1),
            PlaceholderSplit::NoClosing => exists|before: Seq<char>, rest: Seq<char>|
                {
                    &&& buf@ == before + marker_text(id@, true) + rest
                    &&& absent_before(buf@, marker_text(id@, true), before.len() as int)
                    &&& absent_before(rest, marker_text(id@, false), rest.len() as int + 1)
                },
        },
{
    let opening = marker(id, true);
    let closing = marker(id, false);
    match split_once(buf, opening.as_str()) {
        None => PlaceholderSplit::NoOpening,
        Some((before, from_opening)) => match split_once(from_opening, closing.as_str()) {
            Some((fallback, after)) => {
                proof {
                    assert(from_opening@ == fallback@ + closing@ + after@);
                    assert(buf@ =~= before@ + opening@ + fallback@ + closing@ + after@);
                }
                PlaceholderSplit::Found(before, after)
            },
            None => {
                proof {
                    assert(buf@ == before@ + opening@ + from_opening@);
                }
                PlaceholderSplit::NoClosing
            },
        },
    }
}

/// Without an opening marker in the buffer, there is no fallback to split around.
proof fn lemma_no_opening(buf: Seq<char>, id: Seq<char>)
    requires
        absent_before(buf, marker_text(id, true), buf.len() as int + 1),
    ensures
        !exists|before: Seq<char>, after: Seq<char>| surrounds(buf, id, before, after),
        !has_opening(buf, id),
{
    let o = marker_text(id, true);
    assert forall|b: Seq<char>, a: Seq<char>| !surrounds(buf, id, b, a) by {
        if surrounds(buf, id, b, a) {
            let fallback = choose|fallback: Seq<char>|
                {
                    &&& buf == b + marker_text(id, true) + fallback + marker_text(id, false) + a
                    &&& absent_before(buf, marker_text(id, true), b.len() as int)
                    &&& absent_before(
                        fallback + marker_text(id, false) + a,
                        marker_text(id, false),
                        fallback.len() as int,
                    )
                };
            assert(buf.subrange(b.len() as int, (b.len() + o.len()) as int) =~= o);
            assert(occurs_at(buf, o, b.len() as int));
        }
    }
    assert forall|j: int| !occurs_at(buf, o, j) by {
        if occurs_at(buf, o, j) {
            assert(j <= buf.len());
        }
    }
}

/// With an opening marker and no closing marker after it, there is no fallback to split
/// around.
proof fn lemma_no_closing(buf: Seq<char>, id: Seq<char>, b0: Seq<char>, rest: Seq<char>)
    requires
        buf == b0 + marker_text(id, true) + rest,
        absent_before(buf, marker_text(id, true), b0.len() as int),
        absent_before(rest, marker_text(id, false), rest.len() as int + 1),
    ensures
        !exists|before: Seq<char>, after: Seq<char>| surrounds(buf, id, before, after),
        has_opening(buf, id),
{
    let o = marker_text(id, true);
    let c = marker_text(id, false);
    assert(occurs_at(buf, o, b0.len() as int)) by {
        assert(buf.subrange(b0.len() as int, (b0.len() + o.len()) as int) =~= o);
    }
    assert forall|b: Seq<char>, a: Seq<char>| !surrounds(buf, id, b, a) by {
        if surrounds(buf, id, b, a) {
            let fallback = choose|fallback: Seq<char>|
                {
                    &&& buf == b + o + fallback + c + a
                    &&& absent_before(buf, o, b.len() as int)
                    &&& absent_before(fallback + c + a, c, fallback.len() as int)
                };
            // both split at the first opening marker
            assert(occurs_at(buf, o, b.len() as int)) by {
                assert(buf.subrange(b.len() as int, (b.len() + o.len()) as int) =~= o);
            }
            assert(b.len() == b0.len());
            assert(rest =~= fallback + c + a) by {
                assert(rest =~= buf.subrange((b0.len() + o.len()) as int, buf.len() as int));
                assert(fallback + c + a =~= buf.subrange((b.len() + o.len()) as int, buf.len() as int));
            }
            assert(occurs_at(rest, c, fallback.len() as int)) by {
                assert(rest.subrange(fallback.len() as int, (fallback.len() + c.len()) as int) =~= c);
            }
        }
    }
}

/// Splits `buf` around the fallback of the out-of-order chunk `id`: what comes before its
/// opening marker, and what comes after the closing marker that follows it. `None` if the
/// opening marker is not in `buf` (it was streamed already), or no closing marker follows
/// it.
pub fn split_around_placeholder<'a>(buf: &'a str, id: &str) -> (parts: Option<(&'a str, &'a str)>)
    ensures
        match parts {
            Some((before, after)) => surrounds(buf@, id@, before@, after@),
            None => !exists|before: Seq<char>, after: Seq<char>| surrounds(buf@, id@, before, after),
        },
{
    match locate_placeholder(buf, id) {
        PlaceholderSplit::Found(before, after) => Some((before, after)),
        PlaceholderSplit::NoOpening => {
            proof {
                lemma_no_opening(buf@, id@);
            }
            None
        },
        PlaceholderSplit::NoClosing => {
            proof {
                let (b0, rest) = choose|before: Seq<char>, rest: Seq<char>|
                    {
                        &&& buf@ == before + marker_text(id@, true) + rest
                        &&& absent_before(buf@, marker_text(id@, true), before.len() as int)
                        &&& absent_before(rest, marker_text(id@, false), rest.len() as int + 1)
                    };
                lemma_no_closing(buf@, id@, b0, rest);
            }
            None
        },
    }
}

/// What the stream needs next.
#[derive(Debug)]
pub enum StreamStep {
    /// HTML to send.
    Ready(String),
    /// The stream has ended.
    Done,
    /// Await the in-order future; hand what it gives back with `resume_in_order`.
    AwaitInOrder(FutureId),
    /// Poll the out-of-order futures (`pending_out_of_order`), hand back each one that is
    /// ready with `complete_out_of_order`, then call `end_out_of_order_round`.
    PollOutOfOrder,
    /// Nothing is ready yet.
    Pending,
}

/// A step, with its text as characters.
pub enum StepView {
    Ready(Seq<char>),
    Done,
    AwaitInOrder(FutureId),
    PollOutOfOrder,
    Pending,
}

/// The view of a step.
pub open spec fn step_view(step: StreamStep) -> StepView {
    match step {
        StreamStep::Ready(text) => StepView::Ready(text@),
        StreamStep::Done => StepView::Done,
        StreamStep::AwaitInOrder(future) => StepView::AwaitInOrder(future),
        StreamStep::PollOutOfOrder => StepView::PollOutOfOrder,
        StreamStep::Pending => StepView::Pending,
    }
}

/// The stream after the text chunks that follow are joined to its text, up to the first
/// chunk that waits: an in-order chunk stays first, an out-of-order chunk starts waiting.
pub open spec fn merge_syncs(s: StreamState) -> StreamState
    decreases s.chunks.len(),
{
    if s.chunks.len() == 0 {
        s
    } else {
        match s.chunks[0] {
            ChunkView::Sync(text) => merge_syncs(
                StreamState { sync_buf: s.sync_buf + text, chunks: s.chunks.drop_first(), ..s },
            ),
            ChunkView::Async(_) => s,
            ChunkView::OutOfOrder(future) => StreamState {
                chunks: s.chunks.drop_first(),
                pending_ooo: s.pending_ooo.push(future),
                ..s
            },
        }
    }
}

/// Joining text chunks takes chunks out of the stream, never adds any.
pub proof fn lemma_merge_shrinks(s: StreamState)
    ensures
        merge_syncs(s).chunks.len() <= s.chunks.len(),
    decreases s.chunks.len(),
{
    if s.chunks.len() > 0 {
        if let ChunkView::Sync(text) = s.chunks[0] {
            lemma_merge_shrinks(StreamState { sync_buf: s.sync_buf + text, chunks: s.chunks.drop_first(), ..s });
        }
    }
}

/// The stream with its text sent.
pub open spec fn sent(s: StreamState) -> StreamState {
    StreamState { sync_buf: seq![], ..s }
}

/// What the stream does next from `s`, and its state after.
pub open spec fn advance(s: StreamState) -> (StreamState, StepView)
    decreases s.chunks.len(),
{
    if s.pending is Some {
        (s, StepView::AwaitInOrder(s.pending->0))
    } else if s.chunks.len() == 0 {
        if s.pending_ooo.len() > 0 {
            (s, StepView::PollOutOfOrder)
        } else if s.sync_buf.len() == 0 {
            (s, StepView::Done)
        } else {
            (sent(s), StepView::Ready(s.sync_buf))
        }
    } else {
        let rest = s.chunks.drop_first();
        match s.chunks[0] {
            ChunkView::Sync(text) => {
                let joined = StreamState { sync_buf: s.sync_buf + text, chunks: rest, ..s };
                proof {
                    lemma_merge_shrinks(joined);
                }
                advance(merge_syncs(joined))
            },
            ChunkView::Async(future) => {
                let waiting = StreamState { pending: Some(future), chunks: rest, ..s };
                if s.sync_buf.len() == 0 {
                    (waiting, StepView::AwaitInOrder(future))
                } else {
                    (sent(waiting), StepView::Ready(s.sync_buf))
                }
            },
            ChunkView::OutOfOrder(future) => {
                let waiting = StreamState { pending_ooo: s.pending_ooo.push(future), chunks: rest, ..s };
                if s.sync_buf.len() == 0 {
                    advance(waiting)
                } else {
                    (sent(waiting), StepView::Ready(s.sync_buf))
                }
            },
        }
    }
}

/// Whether the stream holds only text: it waits for no future, in order or out of order.
pub open spec fn only_text(s: StreamState) -> bool {
    &&& s.pending is None
    &&& s.pending_ooo.len() == 0
    &&& forall|i: int| 0 <= i < s.chunks.len() ==> (#[trigger] s.chunks[i]) is Sync
}

/// The text of the text chunks of `chunks`, in order.
pub open spec fn all_text(chunks: Seq<ChunkView>) -> Seq<char>
    decreases chunks.len(),
{
    if chunks.len() == 0 {
        seq![]
    } else {
        (match chunks[0] {
            ChunkView::Sync(text) => text,
            _ => seq![],
        }) + all_text(chunks.drop_first())
    }
}

/// Joining the text chunks of a stream of text takes them all.
proof fn lemma_merge_text(s: StreamState)
    requires
        only_text(s),
    ensures
        merge_syncs(s) == (StreamState { sync_buf: s.sync_buf + all_text(s.chunks), chunks: seq![], ..s }),
    decreases s.chunks.len(),
{
    if s.chunks.len() == 0 {
        assert(s.sync_buf + all_text(s.chunks) =~= s.sync_buf);
        assert(s.chunks =~= seq![]);
    } else {
        let text = s.chunks[0]->Sync_0;
        let next = StreamState { sync_buf: s.sync_buf + text, chunks: s.chunks.drop_first(), ..s };
        assert(only_text(next)) by {
            assert forall|i: int| 0 <= i < next.chunks.len() implies (#[trigger] next.chunks[i]) is Sync by {
                assert(next.chunks[i] == s.chunks[i + 1]);
            }
        }
        lemma_merge_text(next);
        assert(s.sync_buf + text + all_text(s.chunks.drop_first()) =~= s.sync_buf + all_text(s.chunks));
    }
}

/// A stream of text never waits: its first step sends all its text, its text chunks in
/// order after the text written since the last chunk, unless there is none; and from then
/// on it has ended, for good.
pub proof fn lemma_text_stream(s: StreamState)
    requires
        only_text(s),
    ensures
        ({
            let (after, step) = advance(s);
            let text = s.sync_buf + all_text(s.chunks);
            &&& text.len() == 0 ==> step == StepView::Done
            &&& text.len() > 0 ==> step == StepView::Ready(text)
            &&& advance(after) == (after, StepView::Done)
        }),
{
    if s.chunks.len() == 0 {
        assert(s.sync_buf + all_text(s.chunks) =~= s.sync_buf);
    } else {
        let text = s.chunks[0]->Sync_0;
        let joined = StreamState { sync_buf: s.sync_buf + text, chunks: s.chunks.drop_first(), ..s };
        assert(only_text(joined)) by {
            assert forall|i: int| 0 <= i < joined.chunks.len() implies (#[trigger] joined.chunks[i]) is Sync by {
                assert(joined.chunks[i] == s.chunks[i + 1]);
            }
        }
        lemma_merge_text(joined);
        assert(joined.sync_buf + all_text(joined.chunks) =~= s.sync_buf + all_text(s.chunks));
        let merged = merge_syncs(joined);
        assert(advance(s) == advance(merged));
    }
}

impl StreamBuilder {
    /// The text written since the last chunk, taken out of the stream.
    fn take_sync(&mut self) -> (text: String)
        ensures
            text@ == old(self)@.sync_buf,
            final(self)@ == sent(old(self)@),
    {
        let mut text = String::new();
        std::mem::swap(&mut text, &mut self.sync_buf);
        proof {
            assert(self@.sync_buf =~= seq![]);
        }
        text
    }

    /// Takes the first chunk out of the stream.
    fn pop_chunk(&mut self) -> (chunk: Option<StreamChunk>)
        ensures
            match chunk {
                Some(c) => {
                    &&& old(self)@.chunks.len() > 0
                    &&& chunk_view(c) == old(self)@.chunks[0]
                    &&& final(self)@ == (StreamState { chunks: old(self)@.chunks.drop_first(), ..old(self)@ })
                },
                None => old(self)@.chunks.len() == 0 && final(self)@ == old(self)@,
            },
    {
        let ghost before = self.chunks@;
        let chunk = self.chunks.pop_front();
        proof {
            if chunk is Some {
                assert(chunk_views(self.chunks@) =~= chunk_views(before).drop_first());
            }
        }
        chunk
    }

    /// Joins the text chunks that follow to the stream's text, up to the first chunk that
    /// waits.
    fn merge_following_syncs(&mut self)
        ensures
            final(self)@ == merge_syncs(old(self)@),
    {
        loop
            invariant
                merge_syncs(self@) == merge_syncs(old(self)@),
            decreases self@.chunks.len(),
        {
            if self.chunks.len() == 0 {
                return;
            }
            let waits_in_order = match &self.chunks[0] {
                StreamChunk::Async { .. } => true,
                _ => false,
            };
            if waits_in_order {
                proof {
                    assert(self@.chunks[0] is Async);
                }
                return;
            }
            match self.pop_chunk() {
                Some(StreamChunk::OutOfOrder { chunks }) => {
                    self.pending_ooo.push_back(chunks);
                    return;
                },
                Some(StreamChunk::Sync(text)) => {
                    push_text(&mut self.sync_buf, text.as_str());
                },
                _ => {},
            }
        }
    }

    /// Decides what the stream does next: sends its text, waits for a future, or ends.
    /// This is the stream's polling, less the awaiting, which the server does.
    pub fn next_step(&mut self) -> (step: StreamStep)
        ensures
            (final(self)@, step_view(step)) == advance(old(self)@),
    {
        loop
            invariant
                advance(self@) == advance(old(self)@),
            decreases self@.chunks.len(),
        {
            if let Some(future) = self.pending {
                return StreamStep::AwaitInOrder(future);
            }
            let ghost before = self@;
            match self.pop_chunk() {
                None => {
                    if self.pending_ooo.len() > 0 {
                        return StreamStep::PollOutOfOrder;
                    } else if self.sync_buf.as_str().is_empty() {
                        return StreamStep::Done;
                    } else {
                        let text = self.take_sync();
                        return StreamStep::Ready(text);
                    }
                },
                Some(StreamChunk::Sync(text)) => {
                    push_text(&mut self.sync_buf, text.as_str());
                    proof {
                        lemma_merge_shrinks(self@);
                    }
                    self.merge_following_syncs();
                },
                Some(StreamChunk::Async { chunks }) => {
                    self.pending = Some(chunks);
                    if !self.sync_buf.as_str().is_empty() {
                        let text = self.take_sync();
                        return StreamStep::Ready(text);
                    }
                    return StreamStep::AwaitInOrder(chunks);
                },
                Some(StreamChunk::OutOfOrder { chunks }) => {
                    self.pending_ooo.push_back(chunks);
                    if !self.sync_buf.as_str().is_empty() {
                        let text = self.take_sync();
                        return StreamStep::Ready(text);
                    }
                },
            }
        }
    }

    /// Hands back the chunks that the in-order future gave: they stream first.
    pub fn resume_in_order(&mut self, chunks: VecDeque<StreamChunk>)
        ensures
            final(self)@ == (StreamState { pending: None, chunks: chunk_views(chunks@) + old(self)@.chunks, ..old(self)@ }),
    {
        self.pending = None;
        let mut chunks = chunks;
        let ghost given = chunks@;
        let ghost start = self.chunks@;
        while chunks.len() > 0
            invariant
                self.chunks@ == given.subrange(chunks@.len() as int, given.len() as int) + start,
                self.pending is None,
                self@.sync_buf == old(self)@.sync_buf,
                self@.pending_ooo == old(self)@.pending_ooo,
                self@.id == old(self)@.id,
                chunks@ == given.subrange(0, chunks@.len() as int),
                chunks@.len() <= given.len(),
            decreases chunks@.len(),
        {
            let ghost left = chunks@;
            match chunks.pop_back() {
                Some(chunk) => {
                    self.chunks.push_front(chunk);
                    proof {
                        assert(chunks@ =~= given.subrange(0, chunks@.len() as int));
                        assert(given.subrange(chunks@.len() as int, given.len() as int) =~= seq![chunk]
                            + given.subrange(left.len() as int, given.len() as int));
                        assert(self.chunks@ =~= given.subrange(chunks@.len() as int, given.len() as int) + start);
                    }
                },
                None => {},
            }
        }
        proof {
            assert(given.subrange(0, given.len() as int) =~= given);
            assert(chunk_views(self.chunks@) =~= chunk_views(given) + chunk_views(start));
        }
    }

    /// The out-of-order futures the stream waits for, in the order they were met.
    pub fn pending_out_of_order(&self) -> (futures: Vec<FutureId>)
        ensures
            futures@ == self@.pending_ooo,
    {
        let mut futures: Vec<FutureId> = Vec::new();
        let mut i: usize = 0;
        while i < self.pending_ooo.len()
            invariant
                i <= self.pending_ooo@.len(),
                futures@ == self.pending_ooo@.take(i as int),
            decreases self.pending_ooo@.len() - i,
        {
            futures.push(self.pending_ooo[i]);
            i += 1;
            proof {
                assert(self.pending_ooo@.take(i as int) == self.pending_ooo@.take(i - 1).push(self.pending_ooo@[i - 1]));
            }
        }
        assert(self.pending_ooo@.take(self.pending_ooo@.len() as int) == self.pending_ooo@);
        futures
    }

    /// After a round of polling the out-of-order futures: sends the stream's text, if it has
    /// any.
    pub fn end_out_of_order_round(&mut self) -> (step: StreamStep)
        ensures
            old(self)@.sync_buf.len() == 0 ==> step_view(step) == StepView::Pending && final(self)@ == old(self)@,
            old(self)@.sync_buf.len() > 0 ==> step_view(step) == StepView::Ready(old(self)@.sync_buf) && final(self)@
                == sent(old(self)@),
    {
        if self.sync_buf.as_str().is_empty() {
            StreamStep::Pending
        } else {
            let text = self.take_sync();
            StreamStep::Ready(text)
        }
    }
}

/// The chunks of `chunks` that wait for a future, in order.
pub open spec fn waiting_chunks(chunks: Seq<ChunkView>) -> Seq<ChunkView>
    decreases chunks.len(),
{
    if chunks.len() == 0 {
        seq![]
    } else {
        (if chunks[0] is Sync {
            seq![]
        } else {
            seq![chunks[0]]
        }) + waiting_chunks(chunks.drop_first())
    }
}

/// The text of `chunks` with `c` after them.
proof fn lemma_all_text_push(chunks: Seq<ChunkView>, c: ChunkView)
    ensures
        all_text(chunks.push(c)) == all_text(chunks) + match c {
            ChunkView::Sync(text) => text,
            _ => Seq::<char>::empty(),
        },
    decreases chunks.len(),
{
    if chunks.len() == 0 {
        let tail = match c {
            ChunkView::Sync(text) => text,
            _ => Seq::<char>::empty(),
        };
        assert(chunks.push(c).drop_first() =~= Seq::<ChunkView>::empty());
        assert(chunks.push(c)[0] == c);
        assert(all_text(chunks.push(c).drop_first()) == Seq::<char>::empty());
        assert(all_text(chunks) == Seq::<char>::empty());
        assert(all_text(chunks.push(c)) == tail + Seq::<char>::empty());
        assert(tail + Seq::<char>::empty() =~= Seq::<char>::empty() + tail);
    } else {
        assert(chunks.push(c).drop_first() =~= chunks.drop_first().push(c));
        assert(chunks.push(c)[0] == chunks[0]);
        lemma_all_text_push(chunks.drop_first(), c);
        let head = match chunks[0] {
            ChunkView::Sync(text) => text,
            _ => Seq::<char>::empty(),
        };
        let tail = match c {
            ChunkView::Sync(text) => text,
            _ => Seq::<char>::empty(),
        };
        assert(head + (all_text(chunks.drop_first()) + tail) =~= head + all_text(chunks.drop_first()) + tail);
    }
}

/// The chunks that wait among `chunks` with `c` after them.
proof fn lemma_waiting_push(chunks: Seq<ChunkView>, c: ChunkView)
    ensures
        waiting_chunks(chunks.push(c)) == waiting_chunks(chunks) + if c is Sync {
            Seq::<ChunkView>::empty()
        } else {
            seq![c]
        },
    decreases chunks.len(),
{
    if chunks.len() == 0 {
        let tail = if c is Sync {
            Seq::<ChunkView>::empty()
        } else {
            seq![c]
        };
        assert(chunks.push(c).drop_first() =~= Seq::<ChunkView>::empty());
        assert(chunks.push(c)[0] == c);
        assert(waiting_chunks(chunks.push(c).drop_first()) == Seq::<ChunkView>::empty());
        assert(waiting_chunks(chunks) == Seq::<ChunkView>::empty());
        assert(waiting_chunks(chunks.push(c)) == tail + Seq::<ChunkView>::empty());
        assert(tail + Seq::<ChunkView>::empty() =~= Seq::<ChunkView>::empty() + tail);
    } else {
        assert(chunks.push(c).drop_first() =~= chunks.drop_first().push(c));
        assert(chunks.push(c)[0] == chunks[0]);
        lemma_waiting_push(chunks.drop_first(), c);
        let head = if chunks[0] is Sync {
            Seq::<ChunkView>::empty()
        } else {
            seq![chunks[0]]
        };
        let tail = if c is Sync {
            Seq::<ChunkView>::empty()
        } else {
            seq![c]
        };
        assert(head + (waiting_chunks(chunks.drop_first()) + tail) =~= head + waiting_chunks(chunks.drop_first()) + tail);
    }
}

/// `queue` without the first `future` in it.
pub open spec fn without_first(queue: Seq<FutureId>, future: FutureId) -> Seq<FutureId>
    decreases queue.len(),
{
    if queue.len() == 0 {
        queue
    } else if queue[0] == future {
        queue.drop_first()
    } else {
        seq![queue[0]] + without_first(queue.drop_first(), future)
    }
}

proof fn lemma_without_first(queue: Seq<FutureId>, future: FutureId, i: int)
    requires
        0 <= i <= queue.len(),
        forall|j: int| 0 <= j < i ==> queue[j] != future,
        i < queue.len() ==> queue[i] == future,
    ensures
        without_first(queue, future) == if i < queue.len() {
            queue.remove(i)
        } else {
            queue
        },
    decreases i,
{
    if queue.len() > 0 && i > 0 {
        lemma_without_first(queue.drop_first(), future, i - 1);
        if i < queue.len() {
            assert(seq![queue[0]] + queue.drop_first().remove(i - 1) =~= queue.remove(i));
        } else {
            assert(seq![queue[0]] + queue.drop_first() =~= queue);
        }
    }
}

/// Whether the opening marker of the out-of-order chunk `id` is in `buf`.
pub open spec fn has_opening(buf: Seq<char>, id: Seq<char>) -> bool {
    exists|j: int| occurs_at(buf, marker_text(id, true), j)
}

impl StreamBuilder {
    /// Stops waiting for the out-of-order future `future`.
    fn stop_waiting_for(&mut self, future: FutureId)
        ensures
            final(self)@ == (StreamState { pending_ooo: without_first(old(self)@.pending_ooo, future), ..old(self)@ }),
    {
        let mut i: usize = 0;
        while i < self.pending_ooo.len() && self.pending_ooo[i].0 != future.0
            invariant
                i <= self.pending_ooo@.len(),
                forall|j: int| 0 <= j < i ==> self.pending_ooo@[j] != future,
            decreases self.pending_ooo@.len() - i,
        {
            i += 1;
        }
        proof {
            lemma_without_first(self.pending_ooo@, future, i as int);
        }
        if i < self.pending_ooo.len() {
            self.pending_ooo.remove(i);
        }
    }

    /// Puts the out-of-order chunk that the future `future` gave in place: in place of its
    /// fallback if that is still in the stream's text, else in a `<template>` with a script
    /// that puts it in place on the page. Returns the error it recovered from if the
    /// fallback's opening marker has no closing marker after it.
    pub fn complete_out_of_order(&mut self, future: FutureId, chunk: OooChunk) -> (report: Option<ViewError>)
        ensures
            final(self)@.pending_ooo == without_first(old(self)@.pending_ooo, future),
            final(self)@.pending == old(self)@.pending,
            final(self)@.id == old(self)@.id,
            (exists|before: Seq<char>, after: Seq<char>| surrounds(old(self)@.sync_buf, chunk.id(), before, after))
                ==> {
                &&& report is None
                &&& exists|before: Seq<char>, after: Seq<char>|
                    {
                        &&& surrounds(old(self)@.sync_buf, chunk.id(), before, after)
                        &&& final(self)@.sync_buf == before + all_text(chunk.chunks()) + after
                    }
                &&& final(self)@.chunks == waiting_chunks(chunk.chunks()) + old(self)@.chunks
            },
            !(exists|before: Seq<char>, after: Seq<char>| surrounds(old(self)@.sync_buf, chunk.id(), before, after))
                ==> {
                &&& report is Some <==> has_opening(old(self)@.sync_buf, chunk.id())
                &&& final(self)@.sync_buf == old(self)@.sync_buf + template_start(chunk.id()) + all_text(
                    chunk.chunks(),
                ) + template_end(chunk.replace(), chunk.id(), chunk.nonce())
                &&& final(self)@.chunks == waiting_chunks(chunk.chunks()) + old(self)@.chunks
            },
    {
        self.stop_waiting_for(future);
        let OooChunk { id, chunks, replace, nonce } = chunk;
        let ghost given = chunk_views(chunks@);
        let ghost old_buf = self.sync_buf@;
        let ghost old_chunks = self.chunks@;
        let split = locate_placeholder(self.sync_buf.as_str(), id.as_str());
        match split {
            PlaceholderSplit::Found(before, after) => {
                let mut buf = String::new();
                push_text(&mut buf, before);
                let (texts, held) = Self::split_chunks(chunks, buf);
                let mut buf = texts;
                push_text(&mut buf, after);
                self.sync_buf = buf;
                let mut held = held;
                let ghost held_start = held@;
                let ghost base = self.chunks@;
                while held.len() > 0
                    invariant
                        self.chunks@ == held_start.subrange(held@.len() as int, held_start.len() as int) + base,
                        held@ == held_start.subrange(0, held@.len() as int),
                        held@.len() <= held_start.len(),
                        self@.sync_buf == before@ + all_text(given) + after@,
                        self@.pending_ooo == without_first(old(self)@.pending_ooo, future),
                        self@.pending == old(self)@.pending,
                        self@.id == old(self)@.id,
                    decreases held@.len(),
                {
                    let ghost left = held@;
                    match held.pop_back() {
                        Some(c) => {
                            self.chunks.push_front(c);
                            proof {
                                assert(held@ =~= held_start.subrange(0, held@.len() as int));
                                assert(held_start.subrange(held@.len() as int, held_start.len() as int) =~= seq![c]
                                    + held_start.subrange(left.len() as int, held_start.len() as int));
                                assert(self.chunks@ =~= held_start.subrange(held@.len() as int, held_start.len() as int) + base);
                            }
                        },
                        None => {},
                    }
                }
                proof {
                    assert(held_start.subrange(0, held_start.len() as int) =~= held_start);
                    assert(chunk_views(self.chunks@) =~= chunk_views(held_start) + chunk_views(base));
                }
                None
            },
            _ => {
                let report = match split {
                    PlaceholderSplit::NoClosing => Some(ViewError::UnclosedChunkMarker { id: id.clone() }),
                    _ => None,
                };
                proof {
                    match split {
                        PlaceholderSplit::NoOpening => {
                            lemma_no_opening(old_buf, id@);
                        },
                        PlaceholderSplit::NoClosing => {
                            let (b0, rest) = choose|before: Seq<char>, rest: Seq<char>|
                                {
                                    &&& old_buf == before + marker_text(id@, true) + rest
                                    &&& absent_before(old_buf, marker_text(id@, true), before.len() as int)
                                    &&& absent_before(rest, marker_text(id@, false), rest.len() as int + 1)
                                };
                            lemma_no_closing(old_buf, id@, b0, rest);
                        },
                        _ => {},
                    }
                }
                let mut buf = String::new();
                std::mem::swap(&mut buf, &mut self.sync_buf);
                OooChunk::push_start(id.as_str(), &mut buf);
                let (texts, held) = Self::split_chunks(chunks, buf);
                self.sync_buf = texts;
                let nonce_text = match &nonce {
                    Some(n) => Some(n.as_str()),
                    None => None,
                };
                OooChunk::push_end_with_nonce(replace, id.as_str(), &mut self.sync_buf, nonce_text);
                let mut held = held;
                let ghost held_start = held@;
                let ghost base = self.chunks@;
                while held.len() > 0
                    invariant
                        self.chunks@ == held_start.subrange(held@.len() as int, held_start.len() as int) + base,
                        held@ == held_start.subrange(0, held@.len() as int),
                        held@.len() <= held_start.len(),
                        self@.sync_buf == old_buf + template_start(id@) + all_text(given) + template_end(
                            replace,
                            id@,
                            match nonce {
                                Some(n) => Some(n@),
                                None => None,
                            },
                        ),
                        self@.pending_ooo == without_first(old(self)@.pending_ooo, future),
                        self@.pending == old(self)@.pending,
                        self@.id == old(self)@.id,
                    decreases held@.len(),
                {
                    let ghost left = held@;
                    match held.pop_back() {
                        Some(c) => {
                            self.chunks.push_front(c);
                            proof {
                                assert(held@ =~= held_start.subrange(0, held@.len() as int));
                                assert(held_start.subrange(held@.len() as int, held_start.len() as int) =~= seq![c]
                                    + held_start.subrange(left.len() as int, held_start.len() as int));
                                assert(self.chunks@ =~= held_start.subrange(held@.len() as int, held_start.len() as int) + base);
                            }
                        },
                        None => {},
                    }
                }
                proof {
                    assert(held_start.subrange(0, held_start.len() as int) =~= held_start);
                    assert(chunk_views(self.chunks@) =~= chunk_views(held_start) + chunk_views(base));
                }
                report
            },
        }
    }

    /// Takes the chunks apart, in order: the text of each text chunk is written at the end of
    /// `buf`, and the chunks that wait are kept, in order.
    fn split_chunks(chunks: VecDeque<StreamChunk>, buf: String) -> (parts: (String, VecDeque<StreamChunk>))
        ensures
            parts.0@ == buf@ + all_text(chunk_views(chunks@)),
            chunk_views(parts.1@) == waiting_chunks(chunk_views(chunks@)),
    {
        let mut chunks = chunks;
        let mut buf = buf;
        let mut held: VecDeque<StreamChunk> = VecDeque::new();
        let ghost given = chunk_views(chunks@);
        let ghost start = buf@;
        proof {
            assert(given.subrange(0, 0) =~= Seq::<ChunkView>::empty());
            assert(buf@ =~= start + all_text(given.subrange(0, 0)));
            assert(chunk_views(held@) =~= waiting_chunks(given.subrange(0, 0)));
            assert(chunk_views(chunks@) =~= given.subrange(0, given.len() as int));
        }
        while chunks.len() > 0
            invariant
                chunks@.len() <= given.len(),
                chunk_views(chunks@) == given.subrange(given.len() - chunks@.len(), given.len() as int),
                buf@ == start + all_text(given.subrange(0, given.len() - chunks@.len())),
                chunk_views(held@) == waiting_chunks(given.subrange(0, given.len() - chunks@.len())),
            decreases chunks@.len(),
        {
            let ghost k = given.len() - chunks@.len();
            let ghost left = chunks@;
            let ghost held_before = held@;
            match chunks.pop_front() {
                Some(c) => {
                    proof {
                        assert(chunk_views(left)[0] == chunk_view(c));
                        assert(given[k] == chunk_view(c));
                        assert(given.subrange(0, k + 1) =~= given.subrange(0, k).push(chunk_view(c)));
                        lemma_all_text_push(given.subrange(0, k), chunk_view(c));
                        lemma_waiting_push(given.subrange(0, k), chunk_view(c));
                        assert(chunks@ =~= left.drop_first());
                        assert forall|j: int| 0 <= j < chunks@.len() implies chunk_views(chunks@)[j] == given.subrange(
                            given.len() - chunks@.len(),
                            given.len() as int,
                        )[j] by {
                            assert(chunks@[j] == left[j + 1]);
                            assert(chunk_views(left)[j + 1] == chunk_view(left[j + 1]));
                        }
                        assert(chunk_views(chunks@) =~= given.subrange(given.len() - chunks@.len(), given.len() as int));
                    }
                    match c {
                        StreamChunk::Sync(text) => {
                            push_text(&mut buf, text.as_str());
                        },
                        other => {
                            held.push_back(other);
                            proof {
                                assert(chunk_views(held@) =~= chunk_views(held_before).push(chunk_view(other)));
                            }
                        },
                    }
                    proof {
                        assert(buf@ =~= start + all_text(given.subrange(0, given.len() - chunks@.len())));
                    }
                },
                None => {},
            }
        }
        proof {
            assert(given.subrange(0, given.len() as int) =~= given);
        }
        (buf, held)
    }
}

} // verus!
