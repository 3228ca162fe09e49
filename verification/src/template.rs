//! A view rendered from a `<template>` whose markup is fixed in advance: on the server it
//! renders as the view it wraps.

use crate::view_error::ViewError;
use crate::view::{HtmlLen, Position, RenderHtml};
use vstd::prelude::*;

verus! {

/// A view wrapper that clones a `<template>` node to create its DOM nodes.
pub struct ViewTemplate<V> {
    view: V,
}

impl<V> ViewTemplate<V> {
    /// Creates a new view template.
    pub fn new(view: V) -> (template: Self)
        ensures
            template.view() == view,
    {
        ViewTemplate { view }
    }

    /// The view it wraps.
    pub closed spec fn view(&self) -> V {
        self.view
    }

    /// The template's markup is fixed in advance: attributes spread onto it are ignored, and
    /// the call reports that, for the caller to log once.
    pub fn add_any_attr<A>(self, attr: A) -> (template: (Self, ViewError))
        ensures
            template.0.view() == self.view(),
            template.1 == (ViewError::AttributesIgnored { what: "a ViewTemplate" }),
    {
        (self, ViewError::AttributesIgnored { what: "a ViewTemplate" })
    }
}

impl<V: HtmlLen> HtmlLen for ViewTemplate<V> {
    open spec fn len_estimate(&self) -> nat {
        self.view().len_estimate()
    }

    fn html_len(&self) -> (n: usize) {
        self.view.html_len()
    }
}

impl<V: RenderHtml> RenderHtml for ViewTemplate<V> {
    open spec fn html(&self, position: Position, escape: bool, mark_branches: bool) -> Seq<char> {
        self.view().html(position, escape, mark_branches)
    }

    open spec fn position_after(&self, position: Position, escape: bool, mark_branches: bool) -> Position {
        self.view().position_after(position, escape, mark_branches)
    }

    fn to_html_with_buf(self, buf: &mut String, position: &mut Position, escape: bool, mark_branches: bool)
        ensures
            self.position_after(*old(position), escape, mark_branches) == *final(position),
    {
        self.view.to_html_with_buf(buf, position, escape, mark_branches);
    }
}

} // verus!
