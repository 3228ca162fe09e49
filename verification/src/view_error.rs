//! What the view layer recovers from instead of panicking: each error says what happens
//! instead, and the caller logs it.

use vstd::prelude::*;

verus! {

/// An error that the view layer recovered from.
#[derive(Debug, Clone, PartialEq, Eq)]
pub enum ViewError {
    /// A type-erased view or attribute keeps its HTML renderer only with `ssr`.
    RenderedWithoutSsr { what: &'static str },
    /// A type-erased view or attribute keeps its hydration code only with `hydrate`.
    HydratedWithoutHydrate { what: &'static str },
    /// A view that cannot be hydrated from a `<template>` fixed at compile time.
    NotInTemplate { what: &'static str },
    /// Attributes spread onto a view that has no element of its own to add them to.
    AttributesIgnored { what: &'static str },
    /// `EitherKeepAlive` shows a side that was never given a view.
    KeepAliveSideMissing { side: &'static str },
    /// `EitherKeepAlive` cannot switch sides: one of them was never given a view.
    KeepAliveCannotSwitch { from: &'static str, to: &'static str },
    /// A client-side value that was not created because `ssr` is active.
    ClientValueMissing { what: &'static str, instead: &'static str },
    /// The render effect behind a reactive attribute or view held no value.
    EffectWithoutValue { what: &'static str, instead: &'static str },
    /// `OwnedView::new` was called outside any reactive owner.
    NoOwner,
    /// More than 65536 out-of-order chunks at one level of the stream.
    ChunkIdWrapped,
    /// An out-of-order chunk's opening marker has no closing marker after it.
    UnclosedChunkMarker { id: String },
    /// The DOM renderer has no document to create nodes in.
    NoDocument,
    /// A type-erased value of another type than its functions were made for.
    ErasedTypeMismatch { what: &'static str, instead: &'static str },
    /// An event without a target.
    NoEventTarget { what: &'static str, instead: &'static str },
}

} // verus!
