//! What axum's `Router::route` accepts, checked before calling it.
//!
//! `Router::route` panics on a path it cannot route (axum's own checks, then matchit's route
//! syntax and its conflicts between routes), and on a second handler for a method it
//! already routes at a path. [`RouteRegistry::register`] gives the same answers as a `Result`.
//! Only routes added through one registry are known to it.

use axum::http::Method;
use axum::routing::MethodFilter;
use vstd::prelude::*;
use vstd::string::StringSliceAdditionalSpecFns;
use vstd::utf8::encode_utf8;

verus! {

#[verifier::external_type_specification]
#[verifier::external_body]
pub struct ExMethod(Method);

#[verifier::external_type_specification]
#[verifier::external_body]
pub struct ExMethodFilter(MethodFilter);

/// The name of an HTTP method, as `Method::as_str` gives it; methods are equal exactly when
/// their names are.
pub uninterp spec fn method_name(method: Method) -> Seq<char>;

/// `Method == Method`: two methods are the same exactly when their names are.
#[verifier::external_body]
fn same_method(a: &Method, b: &Method) -> (same: bool)
    ensures
        same == (method_name(*a) == method_name(*b)),
{
    a == b
}

/// `Method::clone`: the same method.
#[verifier::external_body]
fn clone_method(method: &Method) -> (copy: Method)
    ensures
        method_name(copy) == method_name(*method),
{
    method.clone()
}

/// Whether axum has a method filter for the method named `name`: the nine methods of
/// HTTP/1.1 and PATCH.
pub open spec fn filterable(name: Seq<char>) -> bool {
    name == "CONNECT"@ || name == "DELETE"@ || name == "GET"@ || name == "HEAD"@ || name == "OPTIONS"@
        || name == "PATCH"@ || name == "POST"@ || name == "PUT"@ || name == "TRACE"@
}

/// The method filter axum has for the method named `name`, if it has one.
pub uninterp spec fn method_filter_named(name: Seq<char>) -> Option<MethodFilter>;

/// `MethodFilter::try_from`: the filter for `method`, which this crate names
/// [`method_filter_named`]; axum has one exactly for the nine methods of [`filterable`].
/// Which filter each of them gets is not stated here.
#[verifier::external_body]
fn method_filter(method: &Method) -> (filter: Option<MethodFilter>)
    ensures
        filter == method_filter_named(method_name(*method)),
        filter is Some <==> filterable(method_name(*method)),
{
    MethodFilter::try_from(method.clone()).ok()
}

/// Why axum cannot route a path.
#[derive(Debug, Clone, Copy, PartialEq, Eq, Structural)]
pub enum PathError {
    /// It does not start with `/` (the root is "/").
    NoLeadingSlash,
    /// A segment starts with `:` (a parameter is written `{name}`).
    ColonSegment,
    /// A segment starts with `*` (a catch-all is written `{*name}`).
    StarSegment,
    /// A `{` or `}` does not form a `{name}` parameter (a literal brace is written twice).
    InvalidParam,
    /// A parameter is followed by more text in its segment.
    InvalidParamSegment,
    /// A catch-all is not at the end of the path.
    CatchAllNotLast,
    /// It has more than 25 parameters.
    TooManyParams,
}

/// The most parameters matchit can hold in one route: it renames them `a` to `y`.
pub const MAX_PARAMS: usize = 25;

/// One element of a route path as matchit reads it.
#[derive(Debug, Clone)]
pub enum Token {
    /// A literal byte (a `{` or `}` here was written doubled).
    Literal(u8),
    /// A `{name}` parameter: matchit renames parameters by position, so two parameters in
    /// one place are the same whatever their names.
    Param,
    /// A `{*name}` catch-all: matchit keeps these names, so they must agree.
    CatchAll(Vec<u8>),
}

/// A token, with its name as bytes.
pub enum TokenView {
    Literal(u8),
    Param,
    CatchAll(Seq<u8>),
}

/// The view of a token.
pub open spec fn token_view(token: Token) -> TokenView {
    match token {
        Token::Literal(byte) => TokenView::Literal(byte),
        Token::Param => TokenView::Param,
        Token::CatchAll(name) => TokenView::CatchAll(name@),
    }
}

impl Token {
    /// Whether the token is a parameter or a catch-all.
    pub fn is_wildcard(&self) -> (wildcard: bool)
        ensures
            wildcard == !(token_view(*self) is Literal),
    {
        match self {
            Token::Literal(_) => false,
            _ => true,
        }
    }
}

/// Whether two tokens are the same.
fn same_token(a: &Token, b: &Token) -> (same: bool)
    ensures
        same == (token_view(*a) == token_view(*b)),
{
    match (a, b) {
        (Token::Literal(x), Token::Literal(y)) => *x == *y,
        (Token::Param, Token::Param) => true,
        (Token::CatchAll(x), Token::CatchAll(y)) => {
            if x.len() != y.len() {
                assert(x@.len() != y@.len());
                return false;
            }
            let mut i: usize = 0;
            while i < x.len()
                invariant
                    i <= x@.len(),
                    x@.len() == y@.len(),
                    token_view(*a) == TokenView::CatchAll(x@),
                    token_view(*b) == TokenView::CatchAll(y@),
                    forall|j: int| 0 <= j < i ==> x@[j] == y@[j],
                decreases x.len() - i,
            {
                if x[i] != y[i] {
                    assert(x@[i as int] != y@[i as int]);
                    assert(x@ != y@);
                    assert(token_view(*a) == TokenView::CatchAll(x@));
                    assert(token_view(*b) == TokenView::CatchAll(y@));
                    return false;
                }
                i += 1;
            }
            assert(x@ =~= y@);
            true
        },
        _ => false,
    }
}

/// A path that `Router::route` accepts, as matchit reads it.
#[derive(Debug, Clone)]
pub struct RoutePath(pub Vec<Token>);

/// The views of `tokens`.
pub open spec fn token_views(tokens: Seq<Token>) -> Seq<TokenView> {
    tokens.map_values(|token: Token| token_view(token))
}

impl View for RoutePath {
    type V = Seq<TokenView>;

    open spec fn view(&self) -> Seq<TokenView> {
        token_views(self.0@)
    }
}

/// The first segment of `bytes` at or after `i` that starts with `:` or `*`, as the error
/// it gives.
pub open spec fn segment_error(bytes: Seq<u8>, i: int) -> Option<PathError>
    decreases bytes.len() - i,
{
    if i < 0 || i >= bytes.len() {
        None
    } else if (i == 0 || bytes[i - 1] == 47u8) && bytes[i] == 58u8 {
        Some(PathError::ColonSegment)
    } else if (i == 0 || bytes[i - 1] == 47u8) && bytes[i] == 42u8 {
        Some(PathError::StarSegment)
    } else {
        segment_error(bytes, i + 1)
    }
}

/// Whether the byte at `i` is a brace written twice.
pub open spec fn doubled_at(bytes: Seq<u8>, i: int) -> bool {
    (bytes[i] == 123u8 || bytes[i] == 125u8) && i + 1 < bytes.len() && bytes[i + 1] == bytes[i]
}

/// matchit's unescaping of `bytes` from `i` on: a brace written twice is one literal brace
/// (`true`: escaped).
pub open spec fn unescaped(bytes: Seq<u8>, i: int) -> Seq<(u8, bool)>
    decreases bytes.len() - i,
{
    if i < 0 || i >= bytes.len() {
        seq![]
    } else if doubled_at(bytes, i) {
        seq![(bytes[i], true)] + unescaped(bytes, i + 2)
    } else {
        seq![(bytes[i], false)] + unescaped(bytes, i + 1)
    }
}

/// Where the wildcard whose name starts before `k` closes: the first unescaped `}` from
/// `k` on, unless a `*` or `/` comes first.
pub open spec fn close_of(items: Seq<(u8, bool)>, k: int) -> Result<int, PathError>
    decreases items.len() - k,
{
    if k < 0 || k >= items.len() {
        Err(PathError::InvalidParam)
    } else if items[k].0 == 125u8 && !items[k].1 {
        Ok(k)
    } else if items[k].0 == 42u8 || items[k].0 == 47u8 {
        Err(PathError::InvalidParam)
    } else {
        close_of(items, k + 1)
    }
}

/// The bytes of `items`.
pub open spec fn bytes_of(items: Seq<(u8, bool)>) -> Seq<u8> {
    items.map_values(|item: (u8, bool)| item.0)
}

/// The wildcard whose name starts at `start` (after its `{`), and where what follows its
/// closing `}` starts, as matchit's `find_wildcard` reads it.
pub open spec fn wildcard_at(items: Seq<(u8, bool)>, start: int) -> Result<(TokenView, int), PathError> {
    if start >= items.len() || items[start].0 == 125u8 {
        Err(PathError::InvalidParam)
    } else {
        match close_of(items, start + 1) {
            Err(e) => Err(e),
            Ok(close) => {
                let name = items.subrange(start, close);
                if name.last().0 == 42u8 {
                    Err(PathError::InvalidParam)
                } else if close + 1 < items.len() && items[close + 1].0 != 47u8 {
                    Err(PathError::InvalidParamSegment)
                } else if name[0].0 == 42u8 {
                    Ok((TokenView::CatchAll(bytes_of(name.drop_first())), close + 1))
                } else {
                    Ok((TokenView::Param, close + 1))
                }
            },
        }
    }
}

/// The tokens of `items` from `i` on, with `params` parameters before `i`.
pub open spec fn tokens_from(items: Seq<(u8, bool)>, i: int, params: nat) -> Result<Seq<TokenView>, PathError>
    decreases items.len() - i, 1nat,
{
    if i < 0 || i >= items.len() {
        Ok(seq![])
    } else if items[i].1 || (items[i].0 != 123u8 && items[i].0 != 125u8) {
        match tokens_from(items, i + 1, params) {
            Ok(rest) => Ok(seq![TokenView::Literal(items[i].0)] + rest),
            Err(e) => Err(e),
        }
    } else if items[i].0 == 125u8 {
        Err(PathError::InvalidParam)
    } else {
        tokens_after_wildcard(items, i, params)
    }
}

/// The tokens of `items` from the wildcard that opens at `i` on.
pub open spec fn tokens_after_wildcard(items: Seq<(u8, bool)>, i: int, params: nat) -> Result<
    Seq<TokenView>,
    PathError,
>
    decreases items.len() - i, 0nat,
{
    match wildcard_at(items, i + 1) {
        Err(e) => Err(e),
        Ok((token, next)) => {
            if token is CatchAll && next < items.len() {
                Err(PathError::CatchAllNotLast)
            } else if token is Param && params + 1 > MAX_PARAMS {
                Err(PathError::TooManyParams)
            } else if next <= i || next > items.len() {
                Err(PathError::InvalidParam)
            } else {
                let count = if token is Param {
                    params + 1
                } else {
                    params
                };
                match tokens_from(items, next, count) {
                    Ok(rest) => Ok(seq![token] + rest),
                    Err(e) => Err(e),
                }
            }
        },
    }
}

/// How matchit and axum read `bytes`: the path's tokens, or why they cannot route it.
pub open spec fn parsed_path(bytes: Seq<u8>) -> Result<Seq<TokenView>, PathError> {
    if bytes.len() == 0 || bytes[0] != 47u8 {
        Err(PathError::NoLeadingSlash)
    } else if segment_error(bytes, 0) is Some {
        Err(segment_error(bytes, 0)->0)
    } else {
        tokens_from(unescaped(bytes, 0), 0, 0)
    }
}

/// Whether the paths `a` and `b`, equal before `i`, conflict in matchit: both end together,
/// or at the first place they differ both have a wildcard.
pub open spec fn conflict_from(a: Seq<TokenView>, b: Seq<TokenView>, i: int) -> bool
    decreases a.len() - i,
{
    if i < 0 {
        false
    } else if i >= a.len() && i >= b.len() {
        true
    } else if i >= a.len() || i >= b.len() {
        false
    } else if a[i] == b[i] {
        conflict_from(a, b, i + 1)
    } else {
        !(a[i] is Literal) && !(b[i] is Literal)
    }
}

/// matchit's unescaping: a brace written twice is one literal brace (`true`: escaped).
pub fn unescape(path: &[u8]) -> (items: Vec<(u8, bool)>)
    ensures
        items@ == unescaped(path@, 0),
{
    let mut items: Vec<(u8, bool)> = Vec::new();
    let mut i: usize = 0;
    while i < path.len()
        invariant
            i <= path@.len(),
            items@ + unescaped(path@, i as int) == unescaped(path@, 0),
        decreases path.len() - i,
    {
        let byte = path[i];
        let doubled = (byte == 123 || byte == 125) && i + 1 < path.len() && path[i + 1] == byte;
        let ghost before = items@;
        if doubled {
            items.push((byte, true));
            proof {
                assert(before + unescaped(path@, i as int) =~= items@ + unescaped(path@, i + 2));
            }
            i += 2;
        } else {
            items.push((byte, false));
            proof {
                assert(before + unescaped(path@, i as int) =~= items@ + unescaped(path@, i + 1));
            }
            i += 1;
        }
    }
    proof {
        assert(items@ =~= items@ + unescaped(path@, i as int));
    }
    items
}

/// Where the wildcard whose name starts before `from` closes.
fn find_close(items: &Vec<(u8, bool)>, from: usize) -> (close: Result<usize, PathError>)
    ensures
        match close {
            Ok(c) => close_of(items@, from as int) == Ok::<int, PathError>(c as int),
            Err(e) => close_of(items@, from as int) == Err::<int, PathError>(e),
        },
{
    let mut k = from;
    while k < items.len()
        invariant
            from <= k,
            close_of(items@, k as int) == close_of(items@, from as int),
        decreases items.len() - k,
    {
        let (byte, escaped) = items[k];
        if byte == 125 && !escaped {
            return Ok(k);
        }
        if byte == 42 || byte == 47 {
            return Err(PathError::InvalidParam);
        }
        k += 1;
    }
    Err(PathError::InvalidParam)
}

/// A closing `}` is found at or after where the search starts, and before the end.
proof fn lemma_close_of(items: Seq<(u8, bool)>, k: int)
    ensures
        close_of(items, k) matches Ok(c) ==> k <= c < items.len() && items[c].0 == 125u8 && !items[c].1,
    decreases items.len() - k,
{
    if 0 <= k < items.len() && !(items[k].0 == 125u8 && !items[k].1) && !(items[k].0 == 42u8 || items[k].0 == 47u8) {
        lemma_close_of(items, k + 1);
    }
}

/// Reads the wildcard whose name starts at `start` (after its `{`), as matchit's
/// `find_wildcard` does: returns it and where what follows its closing `}` starts.
pub fn wildcard(items: &Vec<(u8, bool)>, start: usize) -> (res: Result<(Token, usize), PathError>)
    ensures
        match res {
            Ok((token, next)) => wildcard_at(items@, start as int) == Ok::<(TokenView, int), PathError>(
                (token_view(token), next as int),
            ),
            Err(e) => wildcard_at(items@, start as int) == Err::<(TokenView, int), PathError>(e),
        },
{
    // the byte after `{` is part of the name whatever it is, unless it closes the wildcard
    // at once (`{}`)
    if start >= items.len() || items[start].0 == 125 {
        return Err(PathError::InvalidParam);
    }
    let close = match find_close(items, start + 1) {
        Ok(close) => close,
        Err(e) => {
            return Err(e);
        },
    };
    proof {
        lemma_close_of(items@, start + 1);
    }
    let ghost name = items@.subrange(start as int, close as int);
    // `{*}`: a catch-all needs a name
    if items[close - 1].0 == 42 {
        assert(name.last() == items@[close - 1]);
        return Err(PathError::InvalidParam);
    }
    if close + 1 < items.len() && items[close + 1].0 != 47 {
        return Err(PathError::InvalidParamSegment);
    }
    assert(name[0] == items@[start as int]);
    if items[start].0 == 42 {
        let mut catch_all: Vec<u8> = Vec::new();
        let mut k: usize = start + 1;
        while k < close
            invariant
                start + 1 <= k <= close,
                close < items@.len(),
                catch_all@ == bytes_of(items@.subrange(start + 1, k as int)),
            decreases close - k,
        {
            catch_all.push(items[k].0);
            proof {
                assert(bytes_of(items@.subrange(start + 1, k + 1)) =~= bytes_of(items@.subrange(start + 1, k as int)).push(
                    items@[k as int].0,
                ));
            }
            k += 1;
        }
        proof {
            assert(name.drop_first() =~= items@.subrange(start + 1, close as int));
        }
        Ok((Token::CatchAll(catch_all), close + 1))
    } else {
        Ok((Token::Param, close + 1))
    }
}

/// `r` with `prefix` before the tokens, if it has tokens.
pub open spec fn after_prefix(prefix: Seq<TokenView>, r: Result<Seq<TokenView>, PathError>) -> Result<
    Seq<TokenView>,
    PathError,
> {
    match r {
        Ok(rest) => Ok(prefix + rest),
        Err(e) => Err(e),
    }
}

/// A wildcard that was read ends after it starts and before the end.
proof fn lemma_wildcard_next(items: Seq<(u8, bool)>, start: int)
    ensures
        wildcard_at(items, start) matches Ok((t, next)) ==> start < next <= items.len(),
{
    lemma_close_of(items, start + 1);
}

impl RoutePath {
    /// Reads `path` as axum 0.8 and matchit 0.8 do, and fails where they do.
    pub fn parse(path: &str) -> (res: Result<Self, PathError>)
        ensures
            match res {
                Ok(route) => parsed_path(path.spec_bytes()) == Ok::<Seq<TokenView>, PathError>(route@),
                Err(e) => parsed_path(path.spec_bytes()) == Err::<Seq<TokenView>, PathError>(e),
            },
    {
        let bytes = path.as_bytes();
        // axum's `validate_path`
        if bytes.len() == 0 || bytes[0] != 47 {
            return Err(PathError::NoLeadingSlash);
        }
        // axum's checks for the 0.7 syntax
        let mut i: usize = 0;
        while i < bytes.len()
            invariant
                i <= bytes@.len(),
                bytes@ == path.spec_bytes(),
                bytes@.len() > 0,
                bytes@[0] == 47u8,
                segment_error(bytes@, i as int) == segment_error(bytes@, 0),
            decreases bytes.len() - i,
        {
            let starts_segment = i == 0 || bytes[i - 1] == 47;
            if starts_segment && bytes[i] == 58 {
                return Err(PathError::ColonSegment);
            }
            if starts_segment && bytes[i] == 42 {
                return Err(PathError::StarSegment);
            }
            i += 1;
        }
        assert(segment_error(bytes@, i as int) is None);
        let items = unescape(bytes);
        assert(parsed_path(path.spec_bytes()) == tokens_from(items@, 0, 0));
        let mut tokens: Vec<Token> = Vec::new();
        let mut params: usize = 0;
        let mut i: usize = 0;
        while i < items.len()
            invariant
                i <= items@.len(),
                params <= MAX_PARAMS,
                parsed_path(path.spec_bytes()) == tokens_from(items@, 0, 0),
                after_prefix(token_views(tokens@), tokens_from(items@, i as int, params as nat)) == tokens_from(
                    items@,
                    0,
                    0,
                ),
            decreases items.len() - i,
        {
            let (byte, escaped) = items[i];
            let ghost before = tokens@;
            if escaped || (byte != 123 && byte != 125) {
                tokens.push(Token::Literal(byte));
                proof {
                    assert(token_views(tokens@) =~= token_views(before) + seq![TokenView::Literal(byte)]);
                    match tokens_from(items@, i + 1, params as nat) {
                        Ok(rest) => {
                            assert(token_views(before) + (seq![TokenView::Literal(byte)] + rest) =~= token_views(tokens@)
                                + rest);
                        },
                        Err(e) => {},
                    }
                }
                i += 1;
            } else if byte == 125 {
                return Err(PathError::InvalidParam);
            } else {
                assert(tokens_from(items@, i as int, params as nat) == tokens_after_wildcard(items@, i as int, params as nat));
                let (token, next) = match wildcard(&items, i + 1) {
                    Ok(found) => found,
                    Err(e) => {
                        return Err(e);
                    },
                };
                proof {
                    lemma_wildcard_next(items@, i + 1);
                }
                let (is_param, is_catch_all) = match &token {
                    Token::Param => (true, false),
                    Token::CatchAll(_) => (false, true),
                    Token::Literal(_) => (false, false),
                };
                if is_catch_all && next < items.len() {
                    return Err(PathError::CatchAllNotLast);
                }
                if is_param {
                    if params + 1 > MAX_PARAMS {
                        return Err(PathError::TooManyParams);
                    }
                    params += 1;
                }
                let ghost view = token_view(token);
                tokens.push(token);
                proof {
                    assert(token_views(tokens@) =~= token_views(before) + seq![view]);
                    match tokens_from(items@, next as int, params as nat) {
                        Ok(rest) => {
                            assert(token_views(before) + (seq![view] + rest) =~= token_views(tokens@) + rest);
                        },
                        Err(e) => {},
                    }
                }
                i = next;
            }
        }
        proof {
            assert(token_views(tokens@) + seq![] =~= token_views(tokens@));
        }
        Ok(RoutePath(tokens))
    }

    /// Whether matchit refuses to hold both paths in one router. Past their common
    /// beginning, matchit allows a literal next to a wildcard, but two different wildcards
    /// in one place, or two paths that differ only in parameter names, conflict.
    pub fn conflicts_with(&self, other: &RoutePath) -> (conflict: bool)
        ensures
            conflict == conflict_from(self@, other@, 0),
    {
        let mut i: usize = 0;
        while i < self.0.len() || i < other.0.len()
            invariant
                i <= self@.len(),
                i <= other@.len(),
                conflict_from(self@, other@, i as int) == conflict_from(self@, other@, 0),
            decreases self@.len() - i,
        {
            if i >= self.0.len() || i >= other.0.len() {
                // one path is the beginning of the other
                return false;
            }
            if !same_token(&self.0[i], &other.0[i]) {
                return self.0[i].is_wildcard() && other.0[i].is_wildcard();
            }
            i += 1;
        }
        true
    }
}

/// A route that the registry leaves out, rather than let `Router::route` panic on it.
#[derive(Debug, PartialEq, Eq)]
pub enum RouteError {
    /// axum cannot route `path`, because of `reason`.
    InvalidPath { path: String, reason: PathError },
    /// axum's router has no method filter for `method`.
    UnsupportedMethod { path: String, method: Method },
    /// `method` is already routed at `path`.
    Duplicate { path: String, method: Method },
    /// axum cannot tell `path` apart from the route `existing`.
    Conflict { path: String, existing: String },
}

/// A path admitted so far, with the methods routed at it.
#[derive(Debug)]
pub struct RegisteredPath {
    path: String,
    parsed: RoutePath,
    methods: Vec<Method>,
}

/// What the registry knows of one path: its text, its tokens and the names of its methods.
pub struct RouteView {
    pub path: Seq<char>,
    pub tokens: Seq<TokenView>,
    pub methods: Seq<Seq<char>>,
}

/// The names of `methods`.
pub open spec fn method_names(methods: Seq<Method>) -> Seq<Seq<char>> {
    methods.map_values(|method: Method| method_name(method))
}

impl View for RegisteredPath {
    type V = RouteView;

    closed spec fn view(&self) -> RouteView {
        RouteView { path: self.path@, tokens: self.parsed@, methods: method_names(self.methods@) }
    }
}

/// The routes added to one router so far, to refuse what `Router::route` would panic on.
#[derive(Debug)]
pub struct RouteRegistry {
    routes: Vec<RegisteredPath>,
}

impl RouteRegistry {
    /// What a registry keeps of its routes (see [`registry_holds`]).
    #[verifier::type_invariant]
    closed spec fn holds(&self) -> bool {
        registry_holds(self@)
    }
}

impl View for RouteRegistry {
    type V = Seq<RouteView>;

    closed spec fn view(&self) -> Seq<RouteView> {
        self.routes@.map_values(|route: RegisteredPath| route@)
    }
}

/// The first route from `i` on whose path is `path`.
pub open spec fn path_index(routes: Seq<RouteView>, path: Seq<char>, i: int) -> Option<int>
    decreases routes.len() - i,
{
    if i < 0 || i >= routes.len() {
        None
    } else if routes[i].path == path {
        Some(i)
    } else {
        path_index(routes, path, i + 1)
    }
}

/// The first route from `i` on that matchit cannot hold beside a path read as `tokens`.
pub open spec fn conflict_index(routes: Seq<RouteView>, tokens: Seq<TokenView>, i: int) -> Option<int>
    decreases routes.len() - i,
{
    if i < 0 || i >= routes.len() {
        None
    } else if conflict_from(routes[i].tokens, tokens, 0) {
        Some(i)
    } else {
        conflict_index(routes, tokens, i + 1)
    }
}

/// Why a route that axum can read and filter is still refused.
pub enum Refusal {
    /// Its method is already routed at its path.
    Duplicate,
    /// It conflicts with the route at this index.
    Conflict(int),
}

/// The routes after admitting `method` at a path read as `tokens`, or why it is refused:
/// a known path gains the method unless it has it already; a new path is added at the end
/// unless an earlier one conflicts with it.
pub open spec fn admission(routes: Seq<RouteView>, path: Seq<char>, tokens: Seq<TokenView>, method: Seq<char>) -> Result<
    Seq<RouteView>,
    Refusal,
> {
    match path_index(routes, path, 0) {
        Some(i) => if routes[i].methods.contains(method) {
            Err(Refusal::Duplicate)
        } else {
            Ok(routes.update(i, RouteView { methods: routes[i].methods.push(method), ..routes[i] }))
        },
        None => match conflict_index(routes, tokens, 0) {
            Some(j) => Err(Refusal::Conflict(j)),
            None => Ok(routes.push(RouteView { path, tokens, methods: seq![method] })),
        },
    }
}

/// What the registry keeps: each path is read as its tokens and holds at least one method,
/// each a method axum filters and none twice; no path is there twice; and no two paths
/// conflict in matchit.
pub open spec fn registry_holds(routes: Seq<RouteView>) -> bool {
    &&& forall|i: int| 0 <= i < routes.len() ==> parsed_path(encode_utf8(#[trigger] routes[i].path)) == Ok::<Seq<TokenView>, PathError>(routes[i].tokens)
    &&& forall|i: int| 0 <= i < routes.len() ==> #[trigger] routes[i].methods.len() > 0
    &&& forall|i: int, k: int| 0 <= i < routes.len() && 0 <= k < routes[i].methods.len() ==> filterable(#[trigger] routes[i].methods[k])
    &&& forall|i: int| 0 <= i < routes.len() ==> (#[trigger] routes[i].methods).no_duplicates()
    &&& forall|i: int, j: int| 0 <= i < j < routes.len() ==> #[trigger] routes[i].path != #[trigger] routes[j].path
    &&& forall|i: int, j: int| 0 <= i < j < routes.len() ==> !conflict_from(#[trigger] routes[i].tokens, #[trigger] routes[j].tokens, 0)
}

impl RouteRegistry {
    /// An empty registry.
    pub fn new() -> (registry: Self)
        ensures
            registry@ == Seq::<RouteView>::empty(),
    {
        RouteRegistry { routes: Vec::new() }
    }
}

impl Default for RouteRegistry {
    fn default() -> (registry: Self)
        ensures
            registry@ == Seq::<RouteView>::empty(),
    {
        RouteRegistry::new()
    }
}


/// `path_index` finds the first route with the path, and only past `i`.
proof fn lemma_path_index(routes: Seq<RouteView>, path: Seq<char>, i: int)
    requires
        0 <= i,
    ensures
        path_index(routes, path, i) matches Some(k) ==> i <= k < routes.len() && routes[k].path == path
            && forall|m: int| i <= m < k ==> routes[m].path != path,
        path_index(routes, path, i) is None ==> forall|m: int| i <= m < routes.len() ==> routes[m].path != path,
    decreases routes.len() - i,
{
    if i < routes.len() && routes[i].path != path {
        lemma_path_index(routes, path, i + 1);
    }
}

/// `conflict_index` finds the first route that conflicts, and only past `i`.
proof fn lemma_conflict_index(routes: Seq<RouteView>, tokens: Seq<TokenView>, i: int)
    requires
        0 <= i,
    ensures
        conflict_index(routes, tokens, i) matches Some(k) ==> i <= k < routes.len() && conflict_from(
            routes[k].tokens,
            tokens,
            0,
        ) && forall|m: int| i <= m < k ==> !conflict_from(routes[m].tokens, tokens, 0),
        conflict_index(routes, tokens, i) is None ==> forall|m: int|
            i <= m < routes.len() ==> !conflict_from(routes[m].tokens, tokens, 0),
    decreases routes.len() - i,
{
    if i < routes.len() && !conflict_from(routes[i].tokens, tokens, 0) {
        lemma_conflict_index(routes, tokens, i + 1);
    }
}

/// Whether two paths conflict does not depend on which of them was routed first.
pub proof fn lemma_conflict_symmetric(a: Seq<TokenView>, b: Seq<TokenView>, i: int)
    ensures
        conflict_from(a, b, i) == conflict_from(b, a, i),
    decreases a.len() - i,
{
    if 0 <= i && i < a.len() && i < b.len() && a[i] == b[i] {
        lemma_conflict_symmetric(a, b, i + 1);
        assert(conflict_from(b, a, i) == conflict_from(b, a, i + 1));
    }
}

/// `path_index` finds the first route with the path.
proof fn lemma_path_index_at(routes: Seq<RouteView>, path: Seq<char>, i: int, j: int)
    requires
        0 <= j <= i < routes.len(),
        routes[i].path == path,
        forall|m: int| j <= m < i ==> routes[m].path != path,
    ensures
        path_index(routes, path, j) == Some(i),
    decreases i - j,
{
    if j < i {
        lemma_path_index_at(routes, path, i, j + 1);
    }
}

/// Routing a method at a path a second time is refused as a duplicate: once `method` is
/// admitted at `path`, the registry holds it there, whatever was admitted before.
pub proof fn lemma_registered_route_is_duplicate(
    routes: Seq<RouteView>,
    path: Seq<char>,
    tokens: Seq<TokenView>,
    method: Seq<char>,
    after: Seq<RouteView>,
)
    requires
        registry_holds(routes),
        admission(routes, path, tokens, method) == Ok::<Seq<RouteView>, Refusal>(after),
    ensures
        admission(after, path, tokens, method) matches Err(Refusal::Duplicate),
{
    lemma_path_index(routes, path, 0);
    match path_index(routes, path, 0) {
        Some(i) => {
            assert forall|m: int| 0 <= m < i implies after[m].path != path by {
                assert(after[m] == routes[m]);
            }
            lemma_path_index_at(after, path, i, 0);
            assert(after[i].methods == routes[i].methods.push(method));
            assert(after[i].methods[routes[i].methods.len() as int] == method);
        },
        None => {
            let n = routes.len() as int;
            assert forall|m: int| 0 <= m < n implies after[m].path != path by {
                assert(after[m] == routes[m]);
            }
            lemma_path_index_at(after, path, n, 0);
            assert(after[n].methods == seq![method]);
            assert(after[n].methods[0] == method);
        },
    }
}

impl RouteRegistry {
    /// Checks that axum can route `method` at `path` next to the routes admitted so far and,
    /// if it can, records it and returns the method filter to route it with.
    ///
    /// The checks come in this order: the method needs a filter, the path must be one axum
    /// reads, a known path must not have the method yet, and a new path must not conflict
    /// with an earlier one. A refused route leaves the registry as it was.
    #[verifier::rlimit(40)]
    pub fn register(&mut self, path: &str, method: &Method) -> (res: Result<MethodFilter, RouteError>)
        ensures
            registry_holds(final(self)@),
            match res {
                Ok(filter) => {
                    &&& Some(filter) == method_filter_named(method_name(*method))
                    &&& filterable(method_name(*method))
                    &&& parsed_path(path.spec_bytes()) is Ok
                    &&& admission(old(self)@, path@, parsed_path(path.spec_bytes())->Ok_0, method_name(*method))
                        == Ok::<Seq<RouteView>, Refusal>(final(self)@)
                },
                Err(RouteError::UnsupportedMethod { path: p, method: m }) => {
                    &&& !filterable(method_name(*method))
                    &&& p@ == path@
                    &&& method_name(m) == method_name(*method)
                    &&& final(self)@ == old(self)@
                },
                Err(RouteError::InvalidPath { path: p, reason }) => {
                    &&& filterable(method_name(*method))
                    &&& parsed_path(path.spec_bytes()) == Err::<Seq<TokenView>, PathError>(reason)
                    &&& p@ == path@
                    &&& final(self)@ == old(self)@
                },
                Err(RouteError::Duplicate { path: p, method: m }) => {
                    &&& filterable(method_name(*method))
                    &&& parsed_path(path.spec_bytes()) is Ok
                    &&& admission(old(self)@, path@, parsed_path(path.spec_bytes())->Ok_0, method_name(*method))
                        is Err
                    &&& admission(old(self)@, path@, parsed_path(path.spec_bytes())->Ok_0, method_name(*method))->Err_0
                        is Duplicate
                    &&& p@ == path@
                    &&& method_name(m) == method_name(*method)
                    &&& final(self)@ == old(self)@
                },
                Err(RouteError::Conflict { path: p, existing }) => {
                    &&& filterable(method_name(*method))
                    &&& parsed_path(path.spec_bytes()) is Ok
                    &&& admission(old(self)@, path@, parsed_path(path.spec_bytes())->Ok_0, method_name(*method))
                        matches Err(Refusal::Conflict(j)) && 0 <= j < old(self)@.len() && existing@ == old(self)@[j].path
                    &&& p@ == path@
                    &&& final(self)@ == old(self)@
                },
            },
    {
        proof {
            use_type_invariant(&*self);
        }
        let filter = match method_filter(method) {
            Some(filter) => filter,
            None => {
                return Err(RouteError::UnsupportedMethod { path: path.to_owned(), method: clone_method(method) });
            },
        };
        let parsed = match RoutePath::parse(path) {
            Ok(parsed) => parsed,
            Err(reason) => {
                return Err(RouteError::InvalidPath { path: path.to_owned(), reason });
            },
        };
        let owned = path.to_owned();
        let ghost routes = self@;
        let ghost name = method_name(*method);
        let ghost tokens = parsed@;
        assert(routes == old(self)@);
        assert(parsed_path(path.spec_bytes()) == Ok::<Seq<TokenView>, PathError>(tokens));
        proof {
            lemma_path_index(routes, path@, 0);
            lemma_conflict_index(routes, tokens, 0);
        }
        // axum merges the method routers of one path, but not two handlers for one method
        let mut i: usize = 0;
        while i < self.routes.len()
            invariant
                i <= self.routes@.len(),
                routes == self@,
                routes.len() == self.routes@.len(),
                owned@ == path@,
                routes == old(self)@,
                filterable(name),
                name == method_name(*method),
                parsed_path(path.spec_bytes()) == Ok::<Seq<TokenView>, PathError>(tokens),
                registry_holds(routes),
                forall|m: int| 0 <= m < i ==> routes[m].path != path@,
            ensures
                i <= self.routes@.len(),
                i < self.routes@.len() ==> routes[i as int].path == path@,
                forall|m: int| 0 <= m < i ==> routes[m].path != path@,
            decreases self.routes.len() - i,
        {
            if self.routes[i].path == owned {
                break;
            }
            i += 1;
        }
        if i < self.routes.len() {
            proof {
                lemma_path_index(routes, path@, 0);
            }
            assert(path_index(routes, path@, 0) == Some(i as int));
            let mut k: usize = 0;
            let count = self.routes[i].methods.len();
            while k < count
                invariant
                    i < self.routes@.len(),
                    k <= count,
                    count == self.routes@[i as int].methods@.len(),
                    routes == self@,
                    routes[i as int].methods == method_names(self.routes@[i as int].methods@),
                    name == method_name(*method),
                    owned@ == path@,
                    routes == old(self)@,
                    filterable(name),
                    parsed_path(path.spec_bytes()) == Ok::<Seq<TokenView>, PathError>(tokens),
                    registry_holds(routes),
                    path_index(routes, path@, 0) == Some(i as int),
                    forall|q: int| 0 <= q < k ==> routes[i as int].methods[q] != name,
                decreases count - k,
            {
                if same_method(&self.routes[i].methods[k], method) {
                    assert(routes[i as int].methods[k as int] == name);
                    assert(routes[i as int].methods.contains(name));
                    return Err(RouteError::Duplicate { path: owned, method: clone_method(method) });
                }
                k += 1;
            }
            assert(!routes[i as int].methods.contains(name));
            let mut all: Vec<RegisteredPath> = Vec::new();
            std::mem::swap(&mut all, &mut self.routes);
            let mut entry = all.remove(i);
            let ghost before = entry@;
            entry.methods.push(clone_method(method));
            proof {
                assert(method_names(entry.methods@) =~= before.methods.push(name));
            }
            all.insert(i, entry);
            proof {
                let after = all@.map_values(|route: RegisteredPath| route@);
                let expected = routes.update(i as int, RouteView { methods: routes[i as int].methods.push(name), ..routes[i as int] });
                assert(after =~= expected);
                assert forall|q: int| 0 <= q < after.len() implies (#[trigger] after[q].methods).no_duplicates() by {
                    if q == i {
                        assert forall|x: int, y: int| 0 <= x < y < after[q].methods.len() implies after[q].methods[x] != after[q].methods[y] by {
                            if y == after[q].methods.len() - 1 {
                                assert(routes[i as int].methods[x] == after[q].methods[x]);
                            }
                        }
                    }
                }
                assert forall|q: int, k2: int| 0 <= q < after.len() && 0 <= k2 < after[q].methods.len() implies filterable(
                    #[trigger] after[q].methods[k2],
                ) by {
                    if q == i && k2 < routes[i as int].methods.len() {
                        assert(after[q].methods[k2] == routes[i as int].methods[k2]);
                    }
                }
                assert(registry_holds(after));
            }
            self.routes = all;
            return Ok(filter);
        }
        assert(path_index(routes, path@, 0) is None);
        let mut j: usize = 0;
        while j < self.routes.len()
            invariant
                j <= self.routes@.len(),
                routes == self@,
                routes.len() == self.routes@.len(),
                tokens == parsed@,
                owned@ == path@,
                routes == old(self)@,
                filterable(name),
                name == method_name(*method),
                parsed_path(path.spec_bytes()) == Ok::<Seq<TokenView>, PathError>(tokens),
                registry_holds(routes),
                path_index(routes, path@, 0) is None,
                forall|m: int| 0 <= m < j ==> !conflict_from(routes[m].tokens, tokens, 0),
            decreases self.routes.len() - j,
        {
            if self.routes[j].parsed.conflicts_with(&parsed) {
                assert(conflict_from(routes[j as int].tokens, tokens, 0));
                proof {
                    lemma_conflict_index(routes, tokens, 0);
                }
                assert(conflict_index(routes, tokens, 0) == Some(j as int));
                return Err(RouteError::Conflict { path: owned, existing: self.routes[j].path.clone() });
            }
            j += 1;
        }
        proof {
            lemma_conflict_index(routes, tokens, 0);
        }
        assert(conflict_index(routes, tokens, 0) is None);
        let mut all: Vec<RegisteredPath> = Vec::new();
        std::mem::swap(&mut all, &mut self.routes);
        let mut methods: Vec<Method> = Vec::new();
        methods.push(clone_method(method));
        let added = RegisteredPath { path: owned, parsed, methods };
        proof {
            assert(method_names(added.methods@) =~= seq![name]);
        }
        all.push(added);
        proof {
            let after = all@.map_values(|route: RegisteredPath| route@);
            assert(after =~= routes.push(RouteView { path: path@, tokens, methods: seq![name] }));
            assert(registry_holds(after));
        }
        self.routes = all;
        Ok(filter)
    }
}

} // verus!
