//! The paths the axum integration builds: the axum route path of a router path, the file a
//! static page is written to, and the route of the site's package directory; and the
//! script tag each chunk of server data is sent in.

use crate::strings::push_char;
use crate::text::push_text;
use vstd::prelude::*;
use vstd::std_specs::iter::IteratorSpec;

verus! {

/// A segment of a router path.
#[derive(Debug, Clone, PartialEq, Eq)]
pub enum PathSegment {
    /// A path that matches nothing: the empty segment.
    Unit,
    /// A literal segment.
    Static(String),
    /// A named parameter.
    Param(String),
    /// A named parameter that may be left out; paths are expanded before they are routed,
    /// so none is left by then.
    OptionalParam(String),
    /// A named catch-all for the rest of the path.
    Splat(String),
}

/// A segment, with its text as characters.
pub enum SegmentView {
    Unit,
    Static(Seq<char>),
    Param(Seq<char>),
    OptionalParam(Seq<char>),
    Splat(Seq<char>),
}

impl View for PathSegment {
    type V = SegmentView;

    open spec fn view(&self) -> SegmentView {
        match self {
            PathSegment::Unit => SegmentView::Unit,
            PathSegment::Static(s) => SegmentView::Static(s@),
            PathSegment::Param(s) => SegmentView::Param(s@),
            PathSegment::OptionalParam(s) => SegmentView::OptionalParam(s@),
            PathSegment::Splat(s) => SegmentView::Splat(s@),
        }
    }
}

/// The text a segment was written with.
pub open spec fn raw_text(segment: SegmentView) -> Seq<char> {
    match segment {
        SegmentView::Unit => seq![],
        SegmentView::Static(s) => s,
        SegmentView::Param(s) => s,
        SegmentView::OptionalParam(s) => s,
        SegmentView::Splat(s) => s,
    }
}

/// `text` with each `{` and `}` written twice, as axum reads a literal brace.
pub open spec fn braces_doubled(text: Seq<char>) -> Seq<char>
    decreases text.len(),
{
    if text.len() == 0 {
        seq![]
    } else {
        braces_doubled(text.drop_last()) + if text.last() == '{' || text.last() == '}' {
            seq![text.last(), text.last()]
        } else {
            seq![text.last()]
        }
    }
}

/// How axum's route syntax writes a segment: a `/` before it unless it is empty or starts
/// with one; a literal segment with its braces doubled, a parameter as `{name}` and a
/// catch-all as `{*name}`. The empty segment and an optional parameter add nothing more.
pub open spec fn axum_segment(segment: SegmentView) -> Seq<char> {
    let raw = raw_text(segment);
    (if raw.len() > 0 && raw[0] != '/' {
        seq!['/']
    } else {
        seq![]
    }) + match segment {
        SegmentView::Static(s) => braces_doubled(s),
        SegmentView::Param(s) => seq!['{'] + s + seq!['}'],
        SegmentView::Splat(s) => seq!['{', '*'] + s + seq!['}'],
        _ => seq![],
    }
}

/// The axum route path of `segments`: each segment as axum writes it, in order.
pub open spec fn axum_path(segments: Seq<SegmentView>) -> Seq<char>
    decreases segments.len(),
{
    if segments.len() == 0 {
        seq![]
    } else {
        axum_path(segments.drop_last()) + axum_segment(segments.last())
    }
}

/// A router path is written segment by segment, each the same way wherever it stands: the
/// axum path of two router paths one after the other is the axum path of the first followed
/// by that of the second.
pub proof fn lemma_axum_path_concat(first: Seq<SegmentView>, second: Seq<SegmentView>)
    ensures
        axum_path(first + second) == axum_path(first) + axum_path(second),
    decreases second.len(),
{
    if second.len() == 0 {
        assert(first + second =~= first);
        assert(axum_path(first) + axum_path(second) =~= axum_path(first));
    } else {
        let both = first + second;
        assert(both.drop_last() =~= first + second.drop_last());
        assert(both.last() == second.last());
        lemma_axum_path_concat(first, second.drop_last());
        assert(axum_path(first) + axum_path(second.drop_last()) + axum_segment(second.last()) =~= axum_path(first) + (
        axum_path(second.drop_last()) + axum_segment(second.last())));
    }
}

/// Every segment with text that does not start with `/` is written after a `/` of its own,
/// wherever it stands: after a parameter, a literal segment `edit` is written `/edit`, and a
/// parameter `id` is written `/{id}`.
pub proof fn lemma_axum_segments_are_separated(before: Seq<SegmentView>, segment: SegmentView)
    ensures
        raw_text(segment).len() > 0 && raw_text(segment)[0] != '/' ==> {
            &&& axum_path(before.push(segment)).len() > axum_path(before).len()
            &&& axum_path(before.push(segment))[axum_path(before).len() as int] == '/'
        },
        axum_path(before.push(segment)).subrange(0, axum_path(before).len() as int) == axum_path(before),
        forall|name: Seq<char>|
            name.len() > 0 && name[0] != '/' ==> #[trigger] axum_path(before.push(SegmentView::Param(name)))
                == axum_path(before) + seq!['/', '{'] + name + seq!['}'],
        forall|text: Seq<char>|
            text.len() > 0 && text[0] != '/' && !text.contains('{') && !text.contains('}') ==> #[trigger] axum_path(
                before.push(SegmentView::Static(text)),
            ) == axum_path(before) + seq!['/'] + text,
{
    let whole = before.push(segment);
    assert(whole.drop_last() =~= before);
    assert(axum_path(whole).subrange(0, axum_path(before).len() as int) =~= axum_path(before));
    assert forall|name: Seq<char>|
        name.len() > 0 && name[0] != '/' implies #[trigger] axum_path(before.push(SegmentView::Param(name))) == axum_path(
        before,
    ) + seq!['/', '{'] + name + seq!['}'] by {
        assert(before.push(SegmentView::Param(name)).drop_last() =~= before);
        assert(axum_path(before) + (seq!['/'] + (seq!['{'] + name + seq!['}'])) =~= axum_path(before) + seq!['/', '{'] + name
            + seq!['}']);
    }
    assert forall|text: Seq<char>|
        text.len() > 0 && text[0] != '/' && !text.contains('{') && !text.contains('}') implies #[trigger] axum_path(
        before.push(SegmentView::Static(text)),
    ) == axum_path(before) + seq!['/'] + text by {
        assert(before.push(SegmentView::Static(text)).drop_last() =~= before);
        lemma_braces_kept(text);
    }
}

/// Text without braces is written as it is.
proof fn lemma_braces_kept(text: Seq<char>)
    requires
        !text.contains('{'),
        !text.contains('}'),
    ensures
        braces_doubled(text) == text,
    decreases text.len(),
{
    if text.len() > 0 {
        assert(!text.drop_last().contains('{')) by {
            if text.drop_last().contains('{') {
                let k = choose|k: int| 0 <= k < text.drop_last().len() && text.drop_last()[k] == '{';
                assert(text[k] == '{');
            }
        }
        assert(!text.drop_last().contains('}')) by {
            if text.drop_last().contains('}') {
                let k = choose|k: int| 0 <= k < text.drop_last().len() && text.drop_last()[k] == '}';
                assert(text[k] == '}');
            }
        }
        lemma_braces_kept(text.drop_last());
        assert(text.contains(text.last())) by {
            assert(text[text.len() - 1] == text.last());
        }
        assert(text.drop_last().push(text.last()) =~= text);
        assert(braces_doubled(text) =~= text.drop_last() + seq![text.last()]);
    }
}

/// Writes `text` with its braces doubled at the end of `buf`.
fn push_braces_doubled(buf: &mut String, text: &str)
    ensures
        final(buf)@ == old(buf)@ + braces_doubled(text@),
{
    let ghost start = buf@;
    let ghost all = text@;
    let mut chars = text.chars();
    let ghost mut done: int = 0;
    loop
        invariant
            0 <= done <= all.len(),
            chars.remaining() == all.subrange(done, all.len() as int),
            buf@ == start + braces_doubled(all.subrange(0, done)),
            start == old(buf)@,
            all == text@,
        ensures
            buf@ == start + braces_doubled(all),
        decreases all.len() - done,
    {
        let next = chars.next();
        match next {
            Some(c) => {
                proof {
                    assert(all.subrange(done, all.len() as int)[0] == c);
                    assert(all.subrange(0, done + 1).drop_last() =~= all.subrange(0, done));
                    assert(all.subrange(done + 1, all.len() as int) =~= all.subrange(done, all.len() as int).drop_first());
                }
                push_char(buf, c);
                if c == '{' || c == '}' {
                    push_char(buf, c);
                }
                proof {
                    done = done + 1;
                    assert(buf@ =~= start + braces_doubled(all.subrange(0, done)));
                }
            },
            None => {
                assert(all.subrange(0, done) =~= all);
                break;
            },
        }
    }
}

/// Whether `text` is empty or starts with `/`.
fn empty_or_rooted(text: &str) -> (b: bool)
    ensures
        b == !(text@.len() > 0 && text@[0] != '/'),
{
    let n = text.unicode_len();
    n == 0 || text.get_char(0) == '/'
}

/// The axum route path of a router path, made of `segments`.
pub fn to_axum_path(segments: &Vec<PathSegment>) -> (path: String)
    ensures
        path@ == axum_path(segments@.map_values(|s: PathSegment| s@)),
{
    let ghost views = segments@.map_values(|s: PathSegment| s@);
    let mut path = String::new();
    let mut i: usize = 0;
    while i < segments.len()
        invariant
            i <= segments@.len(),
            views == segments@.map_values(|s: PathSegment| s@),
            path@ == axum_path(views.take(i as int)),
        decreases segments.len() - i,
    {
        let ghost before = path@;
        let segment = &segments[i];
        let raw: &str = match segment {
            PathSegment::Unit => "",
            PathSegment::Static(s) => s.as_str(),
            PathSegment::Param(s) => s.as_str(),
            PathSegment::OptionalParam(s) => s.as_str(),
            PathSegment::Splat(s) => s.as_str(),
        };
        proof {
            reveal_strlit("");
        }
        if !empty_or_rooted(raw) {
            push_char(&mut path, '/');
        }
        let ghost after_slash = path@;
        match segment {
            PathSegment::Static(s) => push_braces_doubled(&mut path, s.as_str()),
            PathSegment::Param(s) => {
                push_char(&mut path, '{');
                push_text(&mut path, s.as_str());
                push_char(&mut path, '}');
            },
            PathSegment::Splat(s) => {
                push_char(&mut path, '{');
                push_char(&mut path, '*');
                push_text(&mut path, s.as_str());
                push_char(&mut path, '}');
            },
            _ => {},
        }
        proof {
            let taken = views.take(i + 1);
            assert(taken.drop_last() =~= views.take(i as int));
            assert(taken.last() == segments@[i as int]@);
            assert(path@ =~= before + axum_segment(segments@[i as int]@));
        }
        i += 1;
    }
    assert(views.take(segments@.len() as int) =~= views);
    path
}

/// `text` without the slashes it starts with.
pub open spec fn without_leading_slashes(text: Seq<char>) -> Seq<char>
    decreases text.len(),
{
    if text.len() > 0 && text[0] == '/' {
        without_leading_slashes(text.drop_first())
    } else {
        text
    }
}

/// The file a static page for `path` is written to under `site_root`: the path without its
/// leading slashes (`index` for the root), with `.html`.
pub open spec fn static_file(site_root: Seq<char>, path: Seq<char>) -> Seq<char> {
    let trimmed = without_leading_slashes(path);
    site_root + seq!['/'] + (if trimmed.len() == 0 {
        "index"@
    } else {
        trimmed
    }) + ".html"@
}

/// The file a static page for `path` is written to under `site_root`.
pub fn static_file_path(site_root: &str, path: &str) -> (file: String)
    ensures
        file@ == static_file(site_root@, path@),
{
    let n = path.unicode_len();
    let mut start: usize = 0;
    assert(path@.subrange(0, n as int) =~= path@);
    while start < n && path.get_char(start) == '/'
        invariant
            n == path@.len(),
            start <= n,
            without_leading_slashes(path@.subrange(start as int, n as int)) == without_leading_slashes(path@),
        decreases n - start,
    {
        proof {
            assert(path@.subrange(start as int, n as int).drop_first() =~= path@.subrange(start + 1, n as int));
        }
        start += 1;
    }
    let trimmed = path.substring_char(start, n);
    proof {
        reveal_strlit("index");
        reveal_strlit(".html");
        if start < n {
            assert(path@.subrange(start as int, n as int)[0] != '/');
        }
    }
    let mut file = String::new();
    push_text(&mut file, site_root);
    push_char(&mut file, '/');
    if trimmed.unicode_len() == 0 {
        push_text(&mut file, "index");
    } else {
        push_text(&mut file, trimmed);
    }
    push_text(&mut file, ".html");
    file
}

/// The file a static page for the route `path` is written to: a path with a trailing
/// slash (other than the root) is a directory, with an `index.html` in it.
pub open spec fn static_page_file(site_root: Seq<char>, path: Seq<char>) -> Seq<char> {
    if path != "/"@ && path.len() > 0 && path.last() == '/' {
        static_file(site_root, path + "index"@)
    } else {
        static_file(site_root, path)
    }
}

/// The file a static page for the route `path` is written to under `site_root`.
pub fn static_path(site_root: &str, path: &str) -> (file: String)
    ensures
        file@ == static_page_file(site_root@, path@),
{
    proof {
        reveal_strlit("/");
        reveal_strlit("index");
    }
    let n = path.unicode_len();
    let is_root = n == 1 && path.get_char(0) == '/';
    proof {
        if is_root {
            assert(path@ =~= "/"@);
        }
        if path@ == "/"@ {
            assert(path@[0] == '/');
        }
    }
    if !is_root && n > 0 && path.get_char(n - 1) == '/' {
        let mut directory = path.to_owned();
        push_text(&mut directory, "index");
        static_file_path(site_root, directory.as_str())
    } else {
        static_file_path(site_root, path)
    }
}

/// The route of the site's package directory `site_pkg_dir`: the directory, with a `/`
/// before and after it, and a catch-all for the rest of the path.
pub open spec fn pkg_route(site_pkg_dir: Seq<char>) -> Seq<char> {
    let rooted = if site_pkg_dir.len() > 0 && site_pkg_dir[0] == '/' {
        site_pkg_dir
    } else {
        seq!['/'] + site_pkg_dir
    };
    (if rooted.last() == '/' {
        rooted
    } else {
        rooted + seq!['/']
    }) + "{*path}"@
}

/// The axum route path that serves the site's package directory `site_pkg_dir`.
pub fn site_pkg_dir_service_route_path(site_pkg_dir: &str) -> (route: String)
    ensures
        route@ == pkg_route(site_pkg_dir@),
{
    let mut path = String::new();
    if empty_or_rooted(site_pkg_dir) && site_pkg_dir.unicode_len() > 0 {
    } else {
        push_char(&mut path, '/');
    }
    push_text(&mut path, site_pkg_dir);
    let n = path.as_str().unicode_len();
    if !(n > 0 && path.as_str().get_char(n - 1) == '/') {
        push_char(&mut path, '/');
    }
    push_text(&mut path, "{*path}");
    proof {
        reveal_strlit("{*path}");
    }
    path
}

/// The script tag that sends one chunk of server data: `<script{nonce}>{chunk}</script>`,
/// where `nonce` is the tag's nonce attribute as written (empty for none).
pub open spec fn data_script_text(nonce: Seq<char>, chunk: Seq<char>) -> Seq<char> {
    "<script"@ + nonce + ">"@ + chunk + "</script>"@
}

/// The script tag that sends the chunk of server data `chunk`.
pub fn data_script(nonce: &str, chunk: &str) -> (script: String)
    ensures
        script@ == data_script_text(nonce@, chunk@),
{
    let mut script = String::new();
    push_text(&mut script, "<script");
    push_text(&mut script, nonce);
    push_text(&mut script, ">");
    push_text(&mut script, chunk);
    push_text(&mut script, "</script>");
    script
}

} // verus!
