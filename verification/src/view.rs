//! What a view renders to on the server: its HTML, written into a buffer, and an estimate of
//! its length, which sizes the buffer.

use crate::ssr::{StreamBuilder, StreamState};
use crate::text::reserve_text;
use vstd::prelude::*;

verus! {

/// Where a view's first node goes, relative to the node the cursor is at.
#[derive(Clone, Copy, Debug, PartialEq, Eq)]
pub enum Position {
    /// At the cursor's node.
    Current,
    /// The first child of the cursor's node.
    FirstChild,
    /// The next sibling of the cursor's node.
    NextChild,
    /// The next sibling, after a text node.
    NextChildAfterText,
    /// The only child of the cursor's node.
    OnlyChild,
    /// The last child of the cursor's node.
    LastChild,
}

/// A length estimate as a `usize`: the estimate, or `usize::MAX` where it is larger.
pub open spec fn saturated(n: nat) -> usize {
    if n > usize::MAX {
        usize::MAX
    } else {
        n as usize
    }
}

/// A view's estimate of the length of its HTML.
pub trait HtmlLen {
    /// The estimate, which may be larger than any `usize`. Each view of this crate states
    /// its own; one that does not is taken to estimate nothing.
    closed spec fn len_estimate(&self) -> nat {
        0
    }

    /// The estimate, saturated to a `usize`.
    fn html_len(&self) -> (n: usize)
        ensures
            n == saturated(self.len_estimate()),
    ;
}

/// A view that renders to HTML.
pub trait RenderHtml: HtmlLen + Sized {
    /// The HTML the view writes when its first node goes at `position`.
    spec fn html(&self, position: Position, escape: bool, mark_branches: bool) -> Seq<char>;

    /// Where the node after the view goes.
    spec fn position_after(&self, position: Position, escape: bool, mark_branches: bool) -> Position;

    /// Writes the view's HTML at the end of `buf`.
    fn to_html_with_buf(self, buf: &mut String, position: &mut Position, escape: bool, mark_branches: bool)
        ensures
            final(buf)@ == old(buf)@ + self.html(*old(position), escape, mark_branches),
            *final(position) == self.position_after(*old(position), escape, mark_branches),
    ;

    /// Writes the view's HTML into the stream's text.
    fn to_html_async_with_buf(self, buf: &mut StreamBuilder, position: &mut Position, escape: bool, mark_branches: bool)
        ensures
            final(buf)@ == (StreamState {
                sync_buf: old(buf)@.sync_buf + self.html(*old(position), escape, mark_branches),
                ..old(buf)@
            }),
            *final(position) == self.position_after(*old(position), escape, mark_branches),
    {
        let mut text = String::new();
        self.to_html_with_buf(&mut text, position, escape, mark_branches);
        buf.push_sync(text.as_str());
    }

    /// The view's HTML, as the first child of its parent, escaped.
    fn to_html(self) -> (html: String)
        ensures
            html@ == self.html(Position::FirstChild, true, false),
    {
        let mut buf = String::new();
        reserve_text(&mut buf, self.html_len());
        let mut position = Position::FirstChild;
        self.to_html_with_buf(&mut buf, &mut position, true, false);
        buf
    }
}

} // verus!
