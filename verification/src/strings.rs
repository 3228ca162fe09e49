//! Text as a view: it renders as HTML text, escaped when asked, with a comment between it
//! and text just before it, so the browser keeps the two text nodes apart.

use crate::text::push_text;
use crate::view::{HtmlLen, Position, RenderHtml};
use vstd::prelude::*;
use vstd::std_specs::iter::IteratorSpec;
use vstd::utf8::encode_utf8;

verus! {

/// `String::push`: appends `c`.
#[verifier::external_body]
pub(crate) fn push_char(buf: &mut String, c: char)
    ensures
        final(buf)@ == old(buf)@.push(c),
{
    buf.push(c);
}

/// `c` as HTML text: `&`, `<` and `>` as character references, anything else as it is.
pub open spec fn escaped_char(c: char) -> Seq<char> {
    if c == '&' {
        "&amp;"@
    } else if c == '<' {
        "&lt;"@
    } else if c == '>' {
        "&gt;"@
    } else {
        seq![c]
    }
}

/// `text` as HTML text.
pub open spec fn escaped(text: Seq<char>) -> Seq<char>
    decreases text.len(),
{
    if text.len() == 0 {
        seq![]
    } else {
        escaped(text.drop_last()) + escaped_char(text.last())
    }
}

/// Writes `text` as HTML text at the end of `buf`.
pub fn push_escaped(buf: &mut String, text: &str)
    ensures
        final(buf)@ == old(buf)@ + escaped(text@),
{
    broadcast use vstd::string::group_string_axioms;

    let ghost start = buf@;
    let ghost all = text@;
    let mut chars = text.chars();
    let ghost mut done: int = 0;
    loop
        invariant
            0 <= done <= all.len(),
            chars.remaining() == all.subrange(done, all.len() as int),
            buf@ == start + escaped(all.subrange(0, done)),
            start == old(buf)@,
            all == text@,
        decreases all.len() - done,
    {
        let next = chars.next();
        match next {
            Some(c) => {
                proof {
                    assert(all.subrange(done, all.len() as int)[0] == c);
                    assert(all.subrange(0, done + 1).drop_last() =~= all.subrange(0, done));
                    assert(all.subrange(done + 1, all.len() as int) =~= all.subrange(done, all.len() as int).drop_first());
                }
                if c == '&' {
                    push_text(buf, "&amp;");
                } else if c == '<' {
                    push_text(buf, "&lt;");
                } else if c == '>' {
                    push_text(buf, "&gt;");
                } else {
                    push_char(buf, c);
                }
                proof {
                    done = done + 1;
                }
            },
            None => {
                proof {
                    assert(done == all.len());
                    assert(all.subrange(0, all.len() as int) =~= all);
                }
                return;
            },
        }
    }
}

/// The HTML of the text `text` at `position`.
pub open spec fn text_html(text: Seq<char>, position: Position, escape: bool) -> Seq<char> {
    (if position == Position::NextChildAfterText {
        "<!>"@
    } else {
        seq![]
    }) + if escape {
        if text.len() == 0 {
            seq![' ']
        } else {
            escaped(text)
        }
    } else {
        text
    }
}

/// Writes the text `text` at `position`.
fn write_text(text: &str, buf: &mut String, position: &mut Position, escape: bool)
    ensures
        final(buf)@ == old(buf)@ + text_html(text@, *old(position), escape),
        *final(position) == Position::NextChildAfterText,
{
    let ghost start = buf@;
    // a comment keeps this text node apart from the text node before it
    let after_text = match *position {
        Position::NextChildAfterText => true,
        _ => false,
    };
    if after_text {
        push_text(buf, "<!>");
    }
    let ghost marked = buf@;
    if escape && text.is_empty() {
        push_text(buf, " ");
        proof {
            reveal_strlit(" ");
        }
    } else if escape {
        push_escaped(buf, text);
    } else {
        push_text(buf, text);
    }
    *position = Position::NextChildAfterText;
    proof {
        assert(buf@ =~= start + text_html(text@, *old(position), escape));
    }
}

impl<'a> HtmlLen for &'a str {
    /// The length of the text, in bytes.
    open spec fn len_estimate(&self) -> nat {
        encode_utf8(self@).len() as usize as nat
    }

    fn html_len(&self) -> (n: usize) {
        self.len()
    }
}

impl<'a> RenderHtml for &'a str {
    open spec fn html(&self, position: Position, escape: bool, mark_branches: bool) -> Seq<char> {
        text_html(self@, position, escape)
    }

    open spec fn position_after(&self, position: Position, escape: bool, mark_branches: bool) -> Position {
        Position::NextChildAfterText
    }

    fn to_html_with_buf(self, buf: &mut String, position: &mut Position, escape: bool, mark_branches: bool)
        ensures
            *final(position) == Position::NextChildAfterText,
            self.position_after(*old(position), escape, mark_branches) == Position::NextChildAfterText,
    {
        write_text(self, buf, position, escape);
    }
}

impl HtmlLen for String {
    /// The length of the text, in bytes.
    open spec fn len_estimate(&self) -> nat {
        encode_utf8(self@).len() as usize as nat
    }

    fn html_len(&self) -> (n: usize) {
        self.as_str().len()
    }
}

impl RenderHtml for String {
    open spec fn html(&self, position: Position, escape: bool, mark_branches: bool) -> Seq<char> {
        text_html(self@, position, escape)
    }

    open spec fn position_after(&self, position: Position, escape: bool, mark_branches: bool) -> Position {
        Position::NextChildAfterText
    }

    fn to_html_with_buf(self, buf: &mut String, position: &mut Position, escape: bool, mark_branches: bool)
        ensures
            *final(position) == Position::NextChildAfterText,
            self.position_after(*old(position), escape, mark_branches) == Position::NextChildAfterText,
    {
        write_text(self.as_str(), buf, position, escape);
    }
}

} // verus!
