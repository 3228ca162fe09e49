//! Views whose HTML is known in advance: a `<!DOCTYPE>` declaration, and an inert element
//! with no interactivity.

use crate::view_error::ViewError;
use crate::text::push_text;
use crate::view::{HtmlLen, Position, RenderHtml};
use vstd::prelude::*;
use vstd::string::StrSliceExecFns;
use vstd::utf8::encode_utf8;

verus! {

/// A `<!DOCTYPE>` declaration.
pub struct Doctype {
    value: &'static str,
}

/// Creates a `<!DOCTYPE>`.
pub fn doctype(value: &'static str) -> (declaration: Doctype)
    ensures
        declaration.value() == value@,
{
    Doctype { value }
}

impl Doctype {
    /// The declared document type.
    pub closed spec fn value(&self) -> Seq<char> {
        self.value@
    }
}

impl HtmlLen for Doctype {
    /// As long as `<!DOCTYPE html>`.
    open spec fn len_estimate(&self) -> nat {
        15
    }

    fn html_len(&self) -> (n: usize) {
        15
    }
}

impl RenderHtml for Doctype {
    open spec fn html(&self, position: Position, escape: bool, mark_branches: bool) -> Seq<char> {
        "<!DOCTYPE "@ + self.value() + ">"@
    }

    open spec fn position_after(&self, position: Position, escape: bool, mark_branches: bool) -> Position {
        position
    }

    fn to_html_with_buf(self, buf: &mut String, position: &mut Position, escape: bool, mark_branches: bool)
        ensures
            *final(position) == *old(position),
            self.position_after(*old(position), escape, mark_branches) == *old(position),
    {
        push_text(buf, "<!DOCTYPE ");
        push_text(buf, self.value);
        push_text(buf, ">");
    }
}

/// An element that contains no interactivity, and whose contents are known in advance.
pub struct InertElement {
    html: String,
}

impl InertElement {
    /// Creates a new inert element.
    pub fn new(html: &str) -> (element: Self)
        ensures
            element.html() == html@,
    {
        InertElement { html: html.to_owned() }
    }

    /// The element's HTML.
    pub closed spec fn html(&self) -> Seq<char> {
        self.html@
    }

    /// Attributes cannot be spread onto an inert element (it is used as a child, not as the
    /// top of a component): they are ignored, and the call reports that, for the caller to
    /// log once.
    pub fn add_any_attr<A>(self, attr: A) -> (element: (Self, ViewError))
        ensures
            element.0.html() == self.html(),
            element.1 == (ViewError::AttributesIgnored { what: "an InertElement" }),
    {
        (self, ViewError::AttributesIgnored { what: "an InertElement" })
    }
}

impl HtmlLen for InertElement {
    /// The length of its HTML, in bytes.
    open spec fn len_estimate(&self) -> nat {
        encode_utf8(self.html()).len() as usize as nat
    }

    fn html_len(&self) -> (n: usize) {
        self.html.as_str().len()
    }
}

impl RenderHtml for InertElement {
    open spec fn html(&self, position: Position, escape: bool, mark_branches: bool) -> Seq<char> {
        self.html()
    }

    open spec fn position_after(&self, position: Position, escape: bool, mark_branches: bool) -> Position {
        Position::NextChild
    }

    fn to_html_with_buf(self, buf: &mut String, position: &mut Position, escape: bool, mark_branches: bool)
        ensures
            *final(position) == Position::NextChild,
            self.position_after(*old(position), escape, mark_branches) == Position::NextChild,
    {
        push_text(buf, self.html.as_str());
        *position = Position::NextChild;
    }
}

/// Whether `c` is white space (Unicode's `White_Space`).
pub open spec fn is_white_space(c: char) -> bool {
    let n = c as u32;
    (0x9 <= n <= 0xd) || n == 0x20 || n == 0x85 || n == 0xa0 || n == 0x1680 || (0x2000 <= n <= 0x200a)
        || n == 0x2028 || n == 0x2029 || n == 0x202f || n == 0x205f || n == 0x3000
}

/// Whether `c` is an ASCII letter.
pub open spec fn is_ascii_letter(c: char) -> bool {
    ('a' <= c <= 'z') || ('A' <= c <= 'Z')
}

/// Whether `c` can be part of a tag name: an ASCII letter or digit, or `-`.
pub open spec fn is_tag_char(c: char) -> bool {
    is_ascii_letter(c) || ('0' <= c <= '9') || c == '-'
}

/// The first index from `i` on that is not white space (or the end of `s`).
pub open spec fn skip_white(s: Seq<char>, i: int) -> int
    decreases s.len() - i,
{
    if i < 0 || i >= s.len() || !is_white_space(s[i]) {
        i
    } else {
        skip_white(s, i + 1)
    }
}

/// The end of the run of tag characters that starts at `i`.
pub open spec fn name_end(s: Seq<char>, i: int) -> int
    decreases s.len() - i,
{
    if i < 0 || i >= s.len() || !is_tag_char(s[i]) {
        i
    } else {
        name_end(s, i + 1)
    }
}

/// The tag name of the first element of `html`: the tag characters after a `<` that follows
/// the leading white space, if they start with a letter; `template` otherwise.
pub open spec fn tag_name_of(html: Seq<char>) -> Seq<char> {
    let start = skip_white(html, 0);
    if start < html.len() && html[start] == '<' {
        let end = name_end(html, start + 1);
        if end > start + 1 && is_ascii_letter(html[start + 1]) {
            html.subrange(start + 1, end)
        } else {
            "template"@
        }
    } else {
        "template"@
    }
}

pub(crate) fn white_space(c: char) -> (b: bool)
    ensures
        b == is_white_space(c),
{
    let n = c as u32;
    (0x9 <= n && n <= 0xd) || n == 0x20 || n == 0x85 || n == 0xa0 || n == 0x1680 || (0x2000 <= n && n <= 0x200a)
        || n == 0x2028 || n == 0x2029 || n == 0x202f || n == 0x205f || n == 0x3000
}

fn tag_char(c: char) -> (b: bool)
    ensures
        b == is_tag_char(c),
{
    ('a' <= c && c <= 'z') || ('A' <= c && c <= 'Z') || ('0' <= c && c <= '9') || c == '-'
}

/// The tag name of the first element in an inert element's `html`, for the hydration
/// mismatch report and the element created in its place; `template` if `html` does not
/// start with a tag.
pub fn first_tag_name(html: &str) -> (name: &str)
    ensures
        name@ == tag_name_of(html@),
{
    let n = html.unicode_len();
    let mut start: usize = 0;
    while start < n && white_space(html.get_char(start))
        invariant
            n == html@.len(),
            start <= n,
            skip_white(html@, start as int) == skip_white(html@, 0),
        decreases n - start,
    {
        start += 1;
    }
    proof {
        reveal_strlit("template");
    }
    if start < n && html.get_char(start) == '<' {
        let mut end: usize = start + 1;
        while end < n && tag_char(html.get_char(end))
            invariant
                n == html@.len(),
                start < end <= n,
                name_end(html@, end as int) == name_end(html@, start + 1),
            decreases n - end,
        {
            end += 1;
        }
        let first = start + 1;
        if end > first {
            let c = html.get_char(first);
            if ('a' <= c && c <= 'z') || ('A' <= c && c <= 'Z') {
                return html.substring_char(first, end);
            }
        }
    }
    "template"
}

} // verus!
