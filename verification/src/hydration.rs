//! Hydration walks the server-rendered DOM with a cursor, adding interactivity as it goes.
//!
//! If the DOM does not match what a view expects, hydration fails: the first mismatch is
//! reported with where it happened, and the cursor stops reading the server-rendered DOM
//! (every later lookup gets a detached node), so that the application can be rendered on
//! the client instead.

use crate::dom_tree::{DomTree, DomView, KindView, NodeKind, NodeView, node_at};
use crate::html::{is_white_space, white_space};
use crate::text::{decimal, push_decimal, push_text};
use crate::view::Position;
use vstd::prelude::*;

verus! {

/// The `:nth-child(n)` suffix (1-based) for the child node at 0-based `index` among its
/// parent's `count` child nodes. `None` for an only child, for a node not found among its
/// parent's children, and for an index whose position does not fit in a `u32`.
pub fn nth_child_suffix(index: Option<u32>, count: u32) -> (suffix: Option<String>)
    ensures
        suffix is Some <==> (count > 1 && index is Some && index->0 < u32::MAX),
        suffix is Some ==> suffix->0@ == ":nth-child("@ + decimal((index->0 + 1) as nat) + ")"@,
{
    if count <= 1 {
        return None;
    }
    let index = match index {
        Some(index) => index,
        None => {
            return None;
        },
    };
    let position = match index.checked_add(1) {
        Some(position) => position,
        None => {
            return None;
        },
    };
    let mut suffix = String::new();
    push_text(&mut suffix, ":nth-child(");
    push_decimal(&mut suffix, position as u64);
    push_text(&mut suffix, ")");
    Some(suffix)
}

/// The text of `s` lower-cased, as `str::to_lowercase` gives it (Unicode's lower-case
/// mapping).
pub uninterp spec fn lowercase(s: Seq<char>) -> Seq<char>;

/// `s` written as Rust's `Debug` writes a string: quoted, with quotes, backslashes and
/// control characters escaped.
pub uninterp spec fn debug_quoted(s: Seq<char>) -> Seq<char>;

/// `str::to_lowercase`: the lower-case text of `text`, which this crate names [`lowercase`]
/// and does not state further.
#[verifier::external_body]
fn lowercase_text(text: &str) -> (lower: String)
    ensures
        lower@ == lowercase(text@),
{
    text.to_lowercase()
}

/// `format!("{:?}", text)`: `text` as `Debug` writes it, which this crate names
/// [`debug_quoted`] and does not state further.
#[verifier::external_body]
fn debug_text(text: &str) -> (quoted: String)
    ensures
        quoted@ == debug_quoted(text@),
{
    format!("{:?}", text)
}

/// `s` without its white space at either end.
pub open spec fn trimmed(s: Seq<char>) -> Seq<char>
    decreases s.len(),
{
    if s.len() > 0 && is_white_space(s[0]) {
        trimmed(s.drop_first())
    } else if s.len() > 0 && is_white_space(s.last()) {
        trimmed(s.drop_last())
    } else {
        s
    }
}

/// `trimmed(s)` is what lies between the first and the last character that is not white
/// space.
proof fn lemma_trimmed(s: Seq<char>, start: int, end: int)
    requires
        0 <= start <= end <= s.len(),
        forall|k: int| 0 <= k < start ==> is_white_space(#[trigger] s[k]),
        forall|k: int| end <= k < s.len() ==> is_white_space(#[trigger] s[k]),
        start == end || (!is_white_space(s[start]) && !is_white_space(s[end - 1])),
    ensures
        trimmed(s) == s.subrange(start, end),
    decreases s.len(),
{
    if s.len() > 0 && is_white_space(s[0]) {
        if start == end {
            if start > 0 {
                lemma_trimmed(s.drop_first(), start - 1, end - 1);
                assert(s.drop_first().subrange(start - 1, end - 1) =~= s.subrange(start, end));
            } else {
                lemma_trimmed(s.drop_first(), 0, 0);
                assert(s.drop_first().subrange(0, 0) =~= s.subrange(start, end));
            }
        } else {
            lemma_trimmed(s.drop_first(), start - 1, end - 1);
            assert(s.drop_first().subrange(start - 1, end - 1) =~= s.subrange(start, end));
        }
    } else if s.len() > 0 && is_white_space(s.last()) {
        if start == end && end == s.len() {
            lemma_trimmed(s.drop_last(), start - 1, end - 1);
        } else {
            lemma_trimmed(s.drop_last(), start, end - if end == s.len() { 1int } else { 0int });
        }
        assert(s.drop_last().subrange(start, end - if end == s.len() { 1int } else { 0int }) =~= s.subrange(start, end)
            || start == end);
    } else {
        assert(s.subrange(start, end) =~= s);
    }
}

/// `text` without its white space at either end, as `str::trim` gives it.
fn trim_text(text: &str) -> (inner: &str)
    ensures
        inner@ == trimmed(text@),
{
    let n = text.unicode_len();
    let mut start: usize = 0;
    while start < n && white_space(text.get_char(start))
        invariant
            n == text@.len(),
            start <= n,
            forall|k: int| 0 <= k < start ==> is_white_space(#[trigger] text@[k]),
        decreases n - start,
    {
        start += 1;
    }
    let mut end: usize = n;
    while end > start && white_space(text.get_char(end - 1))
        invariant
            n == text@.len(),
            start <= end <= n,
            forall|k: int| end <= k < n ==> is_white_space(#[trigger] text@[k]),
        decreases end - start,
    {
        end -= 1;
    }
    proof {
        if start < end {
            assert(!is_white_space(text@[start as int]));
        }
        lemma_trimmed(text@, start as int, end as int);
    }
    text.substring_char(start, end)
}

/// A short snippet of `text`: trimmed, and cut after 40 characters with `…`.
pub open spec fn snippet(text: Seq<char>) -> Seq<char> {
    let t = trimmed(text);
    if t.len() > 40 {
        t.take(40).push('…')
    } else {
        t
    }
}

/// A short snippet of `text`.
fn snippet_of(text: &str) -> (out: String)
    ensures
        out@ == snippet(text@),
{
    let t = trim_text(text);
    let n = t.unicode_len();
    if n > 40 {
        let mut out = t.substring_char(0, 40).to_owned();
        push_text(&mut out, "…");
        proof {
            reveal_strlit("…");
        }
        out
    } else {
        t.to_owned()
    }
}

/// The node name the DOM gives a node of kind `kind` (for an element, its tag name).
pub open spec fn node_name(kind: KindView) -> Seq<char> {
    match kind {
        KindView::Element { tag, .. } => tag,
        KindView::Text(_) => "#text"@,
        KindView::Comment(_) => "#comment"@,
        KindView::Document => "#document"@,
        KindView::DocumentFragment => "#document-fragment"@,
        KindView::Other(name) => name,
    }
}

/// A short, human-readable description of a node of kind `kind`, e.g.
/// `<div id="app" class="x">`, `#text "Hello, wo…"`, or `<!--<() />-->`.
pub open spec fn description(kind: KindView) -> Seq<char> {
    match kind {
        KindView::Text(text) => "#text "@ + debug_quoted(snippet(text)),
        KindView::Comment(text) => "<!--"@ + snippet(text) + "-->"@,
        KindView::Document => "#document"@,
        KindView::DocumentFragment => "#document-fragment (detached)"@,
        KindView::Element { tag, id, class } => "<"@ + lowercase(tag) + match id {
            Some(id) => " id="@ + debug_quoted(id),
            None => seq![],
        } + match class {
            Some(class) => " class="@ + debug_quoted(snippet(class)),
            None => seq![],
        } + ">"@,
        KindView::Other(name) => lowercase(name),
    }
}

/// The kind of the node `node` names in `t`; `None` (no node, or one outside the tree) is
/// the detached document fragment that hydration uses once it has failed.
pub open spec fn kind_at(t: DomView, node: Option<usize>) -> KindView {
    match node {
        Some(i) => match node_at(t, i as int) {
            Some(n) => n.kind,
            None => KindView::DocumentFragment,
        },
        None => KindView::DocumentFragment,
    }
}

/// Describes a node of kind `kind`.
fn describe_kind(kind: &NodeKind) -> (text: String)
    ensures
        text@ == description(kind@),
{
    match kind {
        NodeKind::Text(text) => {
            let mut out = String::new();
            push_text(&mut out, "#text ");
            let quoted = debug_text(snippet_of(text.as_str()).as_str());
            push_text(&mut out, quoted.as_str());
            out
        },
        NodeKind::Comment(text) => {
            let mut out = String::new();
            push_text(&mut out, "<!--");
            push_text(&mut out, snippet_of(text.as_str()).as_str());
            push_text(&mut out, "-->");
            out
        },
        NodeKind::Document => {
            proof {
                reveal_strlit("#document");
            }
            "#document".to_owned()
        },
        NodeKind::DocumentFragment => "#document-fragment (detached)".to_owned(),
        NodeKind::Element { tag, id, class } => {
            let mut out = String::new();
            push_text(&mut out, "<");
            push_text(&mut out, lowercase_text(tag.as_str()).as_str());
            let ghost after_tag = out@;
            match id {
                Some(id) => {
                    push_text(&mut out, " id=");
                    push_text(&mut out, debug_text(id.as_str()).as_str());
                },
                None => {},
            }
            let ghost after_id = out@;
            match class {
                Some(class) => {
                    push_text(&mut out, " class=");
                    push_text(&mut out, debug_text(snippet_of(class.as_str()).as_str()).as_str());
                },
                None => {},
            }
            push_text(&mut out, ">");
            proof {
                assert(out@ =~= description(kind@));
            }
            out
        },
        NodeKind::Other(name) => lowercase_text(name.as_str()),
    }
}

/// A short, human-readable description of the node `node` names in `tree` (see
/// [`kind_at`]).
pub fn describe_node(tree: &DomTree, node: Option<usize>) -> (text: String)
    ensures
        text@ == description(kind_at(tree@, node)),
{
    let kind = match node {
        Some(i) => tree.kind(i),
        None => None,
    };
    match kind {
        Some(kind) => describe_kind(kind),
        None => "#document-fragment (detached)".to_owned(),
    }
}


/// The nodes from `c` on, following next siblings.
pub open spec fn siblings_from(nodes: Seq<NodeView>, c: int) -> Seq<usize>
    decreases nodes.len() - c,
{
    if c < 0 || c >= nodes.len() {
        seq![]
    } else {
        match nodes[c].next_sibling {
            Some(s) => if c < s < nodes.len() {
                seq![c as usize] + siblings_from(nodes, s as int)
            } else {
                seq![c as usize]
            },
            None => seq![c as usize],
        }
    }
}

/// The child nodes of `p`, in order.
pub open spec fn child_list(nodes: Seq<NodeView>, p: int) -> Seq<usize> {
    match nodes[p].first_child {
        Some(c) => siblings_from(nodes, c as int),
        None => seq![],
    }
}

/// Where `x` first occurs in `s`.
pub open spec fn index_of(s: Seq<usize>, x: usize) -> Option<nat>
    decreases s.len(),
{
    if s.len() == 0 {
        None
    } else if s[0] == x {
        Some(0)
    } else {
        match index_of(s.drop_first(), x) {
            Some(k) => Some(k + 1),
            None => None,
        }
    }
}

/// The `:nth-child(n)` suffix for the child at `index` of `count` child nodes, or nothing
/// (see [`nth_child_suffix`]).
pub open spec fn suffix_text(index: Option<nat>, count: nat) -> Seq<char> {
    if count > 1 && index is Some && index->0 < u32::MAX {
        ":nth-child("@ + decimal((index->0 + 1) as nat) + ")"@
    } else {
        seq![]
    }
}

/// How the path to a node names a node of kind `kind`: an element by its tag name and id,
/// any other node by its node name, lower-cased.
pub open spec fn segment(kind: KindView) -> Seq<char> {
    match kind {
        KindView::Element { tag, id, .. } => lowercase(tag) + match id {
            Some(id) => seq!['#'] + id,
            None => seq![],
        },
        _ => lowercase(node_name(kind)),
    }
}

/// The segments of the path from the node `i` up to the document (not included), the
/// node's first: each with its `:nth-child` suffix among its parent's child nodes.
pub open spec fn path_up(nodes: Seq<NodeView>, i: int) -> Seq<Seq<char>>
    decreases i,
{
    if i < 0 || i >= nodes.len() || nodes[i].kind is Document {
        seq![]
    } else {
        let base = segment(nodes[i].kind);
        match nodes[i].parent {
            Some(p) => if p < i {
                let kids = child_list(nodes, p as int);
                seq![base + suffix_text(index_of(kids, i as usize), kids.len())] + path_up(nodes, p as int)
            } else {
                seq![base]
            },
            None => seq![base],
        }
    }
}

/// `parts` joined with ` > ` between them.
pub open spec fn joined(parts: Seq<Seq<char>>) -> Seq<char>
    decreases parts.len(),
{
    if parts.len() == 0 {
        seq![]
    } else if parts.len() == 1 {
        parts[0]
    } else {
        joined(parts.drop_last()) + " > "@ + parts.last()
    }
}

/// The path from the document to the node `node` names in `t`, in CSS-like notation, e.g.
/// `html > body > main > div#app > p:nth-child(2) > #text`.
pub open spec fn dom_path_text(t: DomView, node: Option<usize>) -> Seq<char> {
    match node {
        Some(i) => if 0 <= i < t.nodes.len() {
            joined(path_up(t.nodes, i as int).reverse())
        } else {
            lowercase("#document-fragment"@)
        },
        None => lowercase("#document-fragment"@),
    }
}

/// The siblings from `c` on come after `c`, in the tree, ascending.
proof fn lemma_siblings_from(nodes: Seq<NodeView>, c: int)
    ensures
        siblings_from(nodes, c).len() <= if 0 <= c < nodes.len() { nodes.len() - c } else { 0 },
    decreases nodes.len() - c,
{
    if 0 <= c < nodes.len() {
        if let Some(s) = nodes[c].next_sibling {
            if c < s < nodes.len() {
                lemma_siblings_from(nodes, s as int);
            }
        }
    }
}

/// Where `node` is among the child nodes of `parent`, and how many there are.
fn child_position(tree: &DomTree, parent: usize, node: usize) -> (position: (Option<u32>, u32))
    requires
        parent < tree@.nodes.len(),
    ensures
        position.1 == child_list(tree@.nodes, parent as int).len(),
        match position.0 {
            Some(k) => index_of(child_list(tree@.nodes, parent as int), node) == Some(k as nat),
            None => index_of(child_list(tree@.nodes, parent as int), node) is None,
        },
{
    let ghost nodes = tree@.nodes;
    let ghost all = child_list(nodes, parent as int);
    proof {
        use_type_invariant(tree);
        if let Some(c) = nodes[parent as int].first_child {
            lemma_siblings_from(nodes, c as int);
        }
    }
    let mut at = tree.first_child(parent);
    let mut count: u32 = 0;
    let mut index: Option<u32> = None;
    loop
        invariant
            nodes == tree@.nodes,
            nodes.len() < u32::MAX,
            all == child_list(nodes, parent as int),
            all.len() < u32::MAX,
            count <= all.len(),
            all == all.take(count as int) + match at {
                Some(c) => siblings_from(nodes, c as int),
                None => Seq::<usize>::empty(),
            },
            at matches Some(c) ==> 0 <= c < nodes.len(),
            match index {
                Some(k) => index_of(all.take(count as int), node) == Some(k as nat),
                None => index_of(all.take(count as int), node) is None,
            },
        ensures
            count == all.len(),
            match index {
                Some(k) => index_of(all, node) == Some(k as nat),
                None => index_of(all, node) is None,
            },
        decreases match at {
            Some(c) => nodes.len() - c,
            None => 0,
        },
    {
        match at {
            None => {
                assert(all.take(count as int) =~= all);
                break;
            },
            Some(c) => {
                proof {
                    use_type_invariant(tree);
                    lemma_index_of_push(all.take(count as int), c, node);
                    assert(all.take(count as int + 1) =~= all.take(count as int).push(c));
                }
                if index.is_none() && c == node {
                    index = Some(count);
                }
                count += 1;
                let next = tree.next_sibling(c);
                at = match next {
                    Some(s) => if s > c {
                        Some(s)
                    } else {
                        None
                    },
                    None => None,
                };
            },
        }
    }
    (index, count)
}

/// Where `x` first occurs in `s` with `c` pushed at its end.
proof fn lemma_index_of_push(s: Seq<usize>, c: usize, x: usize)
    ensures
        index_of(s.push(c), x) == match index_of(s, x) {
            Some(k) => Some(k),
            None => if c == x {
                Some(s.len())
            } else {
                None::<nat>
            },
        },
    decreases s.len(),
{
    if s.len() > 0 {
        assert(s.push(c).drop_first() =~= s.drop_first().push(c));
        assert(s.push(c)[0] == s[0]);
        lemma_index_of_push(s.drop_first(), c, x);
    } else {
        assert(s.push(c).drop_first() =~= s);
        assert(s.push(c)[0] == c);
    }
}


/// The segment that names the node of kind `kind` in a path.
fn segment_of(kind: &NodeKind) -> (text: String)
    ensures
        text@ == segment(kind@),
{
    match kind {
        NodeKind::Element { tag, id, .. } => {
            let mut seg = lowercase_text(tag.as_str());
            match id {
                Some(id) => {
                    push_text(&mut seg, "#");
                    push_text(&mut seg, id.as_str());
                    proof {
                        reveal_strlit("#");
                    }
                },
                None => {
                    assert(seg@ =~= seg@ + Seq::<char>::empty());
                },
            }
            seg
        },
        NodeKind::Text(_) => lowercase_text("#text"),
        NodeKind::Comment(_) => lowercase_text("#comment"),
        NodeKind::Document => lowercase_text("#document"),
        NodeKind::DocumentFragment => lowercase_text("#document-fragment"),
        NodeKind::Other(name) => lowercase_text(name.as_str()),
    }
}

/// `parts`, last first, joined with ` > ` between them.
fn join_reversed(parts: &Vec<String>) -> (text: String)
    ensures
        text@ == joined(parts@.map_values(|part: String| part@).reverse()),
{
    let ghost views = parts@.map_values(|part: String| part@);
    let mut out = String::new();
    let mut k: usize = parts.len();
    while k > 0
        invariant
            k <= parts@.len(),
            views == parts@.map_values(|part: String| part@),
            out@ == joined(views.subrange(k as int, views.len() as int).reverse()),
        decreases k,
    {
        let ghost before = views.subrange(k as int, views.len() as int).reverse();
        if k < parts.len() {
            push_text(&mut out, " > ");
        }
        push_text(&mut out, parts[k - 1].as_str());
        proof {
            let now = views.subrange(k - 1, views.len() as int).reverse();
            assert(now.drop_last() =~= before);
            assert(now.last() == views[k - 1]);
            if k < parts.len() {
                assert(now.len() > 1);
            } else {
                assert(now.len() == 1);
                assert(before.len() == 0);
                assert(out@ =~= now[0]);
            }
        }
        k -= 1;
    }
    assert(views.subrange(0, views.len() as int) =~= views);
    out
}

/// The path from the document to the node `node` names in `tree`, in CSS-like notation,
/// e.g. `html > body > main > div#app > p:nth-child(2) > #text`. Each node is counted among
/// all its parent's child nodes, comments and text included, because that is what the
/// hydration cursor walks.
pub fn dom_path(tree: &DomTree, node: Option<usize>) -> (path: String)
    ensures
        path@ == dom_path_text(tree@, node),
{
    proof {
        use_type_invariant(tree);
    }
    let start = match node {
        Some(i) => {
            if i >= tree.len() {
                return lowercase_text("#document-fragment");
            }
            i
        },
        None => {
            return lowercase_text("#document-fragment");
        },
    };
    let ghost nodes = tree@.nodes;
    let mut segments: Vec<String> = Vec::new();
    let mut current: Option<usize> = Some(start);
    loop
        invariant
            nodes == tree@.nodes,
            dom_holds_now(tree),
            current matches Some(c) ==> c < nodes.len(),
            path_up(nodes, start as int) == segments@.map_values(|part: String| part@) + match current {
                Some(c) => path_up(nodes, c as int),
                None => Seq::<Seq<char>>::empty(),
            },
        ensures
            path_up(nodes, start as int) == segments@.map_values(|part: String| part@),
        decreases match current {
            Some(c) => c + 1,
            None => 0,
        },
    {
        let i = match current {
            Some(i) => i,
            None => {
                assert(segments@.map_values(|part: String| part@) + Seq::<Seq<char>>::empty()
                    =~= segments@.map_values(|part: String| part@));
                break;
            },
        };
        let ghost before = segments@.map_values(|part: String| part@);
        let kind = tree.kind(i).unwrap();
        if let NodeKind::Document = kind {
            assert(before + path_up(nodes, i as int) =~= before);
            break;
        }
        let mut seg = segment_of(kind);
        match tree.parent(i) {
            Some(p) => {
                let (index, count) = child_position(tree, p, i);
                match nth_child_suffix(index, count) {
                    Some(suffix) => push_text(&mut seg, suffix.as_str()),
                    None => {
                        assert(seg@ =~= seg@ + Seq::<char>::empty());
                    },
                }
                current = Some(p);
            },
            None => {
                current = None;
            },
        }
        segments.push(seg);
        proof {
            assert(segments@.map_values(|part: String| part@) =~= before.push(seg@));
            let rest = match current {
                Some(c) => path_up(nodes, c as int),
                None => Seq::<Seq<char>>::empty(),
            };
            assert(before + path_up(nodes, i as int) =~= before.push(seg@) + rest);
        }
    }
    join_reversed(&segments)
}

/// Whether the tree keeps what every tree keeps; its type invariant, named where a loop
/// needs it.
pub open spec fn dom_holds_now(tree: &DomTree) -> bool {
    crate::dom_tree::dom_holds(tree@)
}


/// What a mismatch report says after where it happened.
pub const MISMATCH_ADVICE: &'static str = "\n\nThe server-rendered HTML does \
     not match what the client expected at this position. Common \
     causes: the server and client were built from different code \
     or with different `--cfg`/feature flags, a component renders \
     differently on the server and in the browser (e.g. reads \
     browser-only state during render), or a browser extension \
     modified the page. The mismatch may have started slightly \
     earlier; this is the first node of an unexpected type.";

/// What is logged after a mismatch report, with the node that was found.
pub const HYDRATION_ABANDONED: &'static str = "\n\nHydration of this tree is being abandoned; the \
     application will be rendered on the client instead.";

/// The report of a hydration mismatch: the view being hydrated, what it expected, what was
/// found (nothing, where the cursor has run off the server-rendered DOM), and where.
pub open spec fn mismatch_message(hydrating: Seq<char>, expected: Seq<char>, t: DomView, found: Option<usize>) -> Seq<char> {
    let found_desc = if kind_at(t, found) is DocumentFragment {
        "nothing (the server-rendered DOM ended here)"@
    } else {
        description(kind_at(t, found))
    };
    "[halyard] Hydration mismatch while hydrating the view defined at "@ + hydrating + ".\n  expected: "@ + expected
        + "\n  found:    "@ + found_desc + "\n  at:       "@ + dom_path_text(t, found) + MISMATCH_ADVICE@
}

/// Reports a hydration mismatch: `expected` was not what the view defined at `hydrating`
/// found at `found`. The first mismatch of a hydration pass is reported in full; later ones
/// are not, since they follow from the first. Either way hydration is marked as failed.
pub fn report_mismatch(tree: &mut DomTree, expected: &str, found: Option<usize>, hydrating: &str) -> (report: Option<String>)
    ensures
        report is Some <==> !old(tree)@.failed,
        report matches Some(message) ==> message@ == mismatch_message(hydrating@, expected@, old(tree)@, found),
        final(tree)@ == (DomView { failed: true, ..old(tree)@ }),
{
    let first = !tree.failed();
    let report = if first {
        let is_detached = match found {
            Some(i) => match tree.kind(i) {
                Some(NodeKind::DocumentFragment) => true,
                Some(_) => false,
                None => true,
            },
            None => true,
        };
        let found_desc = if is_detached {
            "nothing (the server-rendered DOM ended here)".to_owned()
        } else {
            describe_node(tree, found)
        };
        let mut message = String::new();
        push_text(&mut message, "[halyard] Hydration mismatch while hydrating the view defined at ");
        push_text(&mut message, hydrating);
        push_text(&mut message, ".\n  expected: ");
        push_text(&mut message, expected);
        push_text(&mut message, "\n  found:    ");
        push_text(&mut message, found_desc.as_str());
        push_text(&mut message, "\n  at:       ");
        push_text(&mut message, dom_path(tree, found).as_str());
        push_text(&mut message, MISMATCH_ADVICE);
        proof {
            assert(message@ =~= mismatch_message(hydrating@, expected@, tree@, found));
        }
        Some(message)
    } else {
        None
    };
    tree.set_failed();
    report
}

/// Whether a hydration mismatch has been found on `tree` since the last call to
/// [`take_hydration_failure`]. While it has, the cursor no longer reads the tree, and the
/// hydrated state must be discarded.
pub fn hydration_failed(tree: &DomTree) -> (failed: bool)
    ensures
        failed == tree@.failed,
{
    tree.failed()
}

/// Returns whether a hydration mismatch was found, and clears the flag, so that the next
/// hydration starts clean.
pub fn take_hydration_failure(tree: &mut DomTree) -> (failed: bool)
    ensures
        failed == old(tree)@.failed,
        final(tree)@ == (DomView { failed: false, ..old(tree)@ }),
{
    tree.take_failed()
}

/// The first child of the node `i`, if it has one.
pub open spec fn first_child_of(t: DomView, i: usize) -> Option<usize> {
    match node_at(t, i as int) {
        Some(n) => n.first_child,
        None => None,
    }
}

/// The next sibling of the node `i`, if it has one.
pub open spec fn next_sibling_of(t: DomView, i: usize) -> Option<usize> {
    match node_at(t, i as int) {
        Some(n) => n.next_sibling,
        None => None,
    }
}

/// The parent of the node `i`, if it has one.
pub open spec fn parent_of(t: DomView, i: usize) -> Option<usize> {
    match node_at(t, i as int) {
        Some(n) => n.parent,
        None => None,
    }
}

/// Whether a node of kind `kind` is a marker that opens or closes a branch (a comment
/// whose text starts with `bo` or `bc`).
pub open spec fn is_branch_marker(kind: KindView) -> bool {
    kind matches KindView::Comment(text) && text.len() >= 2 && text[0] == 'b' && (text[1] == 'o' || text[1] == 'c')
}

/// Where the cursor stops from `i` on: where branches are marked, past each branch marker
/// that has a next sibling.
pub open spec fn past_markers(t: DomView, i: usize, mark_branches: bool) -> usize
    decreases t.nodes.len() - i,
{
    if mark_branches && i < t.nodes.len() && is_branch_marker(t.nodes[i as int].kind) {
        match t.nodes[i as int].next_sibling {
            Some(s) => if i < s < t.nodes.len() {
                past_markers(t, s, mark_branches)
            } else {
                i
            },
            None => i,
        }
    } else {
        i
    }
}

/// The markers that open and close a branch are the comments whose text starts with `bo`
/// and with `bc`, whatever follows; no other comment and no other node is one.
pub proof fn lemma_branch_markers_open_and_close(text: Seq<char>, rest: Seq<char>)
    ensures
        is_branch_marker(KindView::Comment("bo"@ + rest)),
        is_branch_marker(KindView::Comment("bc"@ + rest)),
        is_branch_marker(KindView::Comment(text)) <==> (text.len() >= 2 && (text.take(2) == "bo"@ || text.take(2)
            == "bc"@)),
        !is_branch_marker(KindView::Text(text)),
{
    reveal_strlit("bo");
    reveal_strlit("bc");
    assert(("bo"@ + rest)[0] == 'b' && ("bo"@ + rest)[1] == 'o');
    assert(("bc"@ + rest)[0] == 'b' && ("bc"@ + rest)[1] == 'c');
    if text.len() >= 2 {
        assert(text.take(2) =~= seq![text[0], text[1]]);
        assert("bo"@ =~= seq!['b', 'o']);
        assert("bc"@ =~= seq!['b', 'c']);
    }
}

/// Where branches are marked, the cursor passes a marker that closes a branch, as it passes
/// one that opens a branch, when the marker has a node after it: it goes on from there; and
/// it never stops at such a marker.
pub proof fn lemma_cursor_passes_branch_markers(t: DomView, i: usize, rest: Seq<char>)
    ensures
        i < t.nodes.len() && (t.nodes[i as int].kind == KindView::Comment("bc"@ + rest) || t.nodes[i as int].kind
            == KindView::Comment("bo"@ + rest)) ==> match t.nodes[i as int].next_sibling {
            Some(s) => i < s < t.nodes.len() ==> past_markers(t, i, true) == past_markers(t, s, true),
            None => past_markers(t, i, true) == i,
        },
        ({
            let r = past_markers(t, i, true);
            r < t.nodes.len() && (t.nodes[r as int].kind == KindView::Comment("bc"@ + rest) || t.nodes[r as int].kind
                == KindView::Comment("bo"@ + rest)) ==> match t.nodes[r as int].next_sibling {
                Some(s) => !(r < s < t.nodes.len()),
                None => true,
            }
        }),
    decreases t.nodes.len() - i,
{
    lemma_branch_markers_open_and_close(seq![], rest);
    let r = past_markers(t, i, true);
    if i < t.nodes.len() && is_branch_marker(t.nodes[i as int].kind) {
        match t.nodes[i as int].next_sibling {
            Some(s) => {
                if i < s < t.nodes.len() {
                    lemma_cursor_passes_branch_markers(t, s, rest);
                }
            },
            None => {},
        }
    }
}

/// Whether `kind` is a branch marker.
fn branch_marker(kind: &NodeKind) -> (marker: bool)
    ensures
        marker == is_branch_marker(kind@),
{
    match kind {
        NodeKind::Comment(text) => {
            let text = text.as_str();
            if text.unicode_len() < 2 {
                return false;
            }
            let first = text.get_char(0);
            let second = text.get_char(1);
            first == 'b' && (second == 'o' || second == 'c')
        },
        _ => false,
    }
}

/// Hydration's place in the DOM: the node it is at. Each view that renders HTML knows how
/// to move it to the nodes it needs.
///
/// Once hydration has failed on the tree, the cursor stops reading it: it no longer moves,
/// and the node it is at is the detached one (`None`), which no view can cast to what it
/// expects, so that every later view makes its own node.
#[derive(Debug, Clone, Copy)]
pub struct Cursor {
    node: usize,
}

impl Cursor {
    /// The node the cursor is at.
    pub closed spec fn at(&self) -> usize {
        self.node
    }

    /// Creates a cursor at the root node `root`.
    pub fn new(root: usize) -> (cursor: Self)
        ensures
            cursor.at() == root,
    {
        Cursor { node: root }
    }

    /// The node the cursor is at; once hydration has failed, the detached node (`None`).
    pub fn current(&self, tree: &DomTree) -> (node: Option<usize>)
        ensures
            node == if tree@.failed {
                None
            } else {
                Some(self.at())
            },
    {
        if hydration_failed(tree) {
            None
        } else {
            Some(self.node)
        }
    }

    /// Moves on past branch markers, where branches are marked.
    fn skip_markers(&mut self, tree: &DomTree, mark_branches: bool)
        ensures
            final(self).at() == past_markers(tree@, old(self).at(), mark_branches),
    {
        proof {
            use_type_invariant(tree);
        }
        if !mark_branches {
            return;
        }
        loop
            invariant
                past_markers(tree@, self.node, mark_branches) == past_markers(tree@, old(self).node, mark_branches),
                mark_branches,
                crate::dom_tree::dom_holds(tree@),
            decreases tree@.nodes.len() - self.node,
        {
            let marker = match tree.kind(self.node) {
                Some(kind) => branch_marker(kind),
                None => false,
            };
            if !marker {
                return;
            }
            match tree.next_sibling(self.node) {
                Some(s) => {
                    if s <= self.node || s >= tree.len() {
                        return;
                    }
                    self.node = s;
                },
                None => {
                    return;
                },
            }
        }
    }

    /// Moves to the first child of the node the cursor is at (staying if it has none), then
    /// past branch markers. Does nothing once hydration has failed.
    pub fn child(&mut self, tree: &DomTree, mark_branches: bool)
        ensures
            final(self).at() == if tree@.failed {
                old(self).at()
            } else {
                past_markers(
                    tree@,
                    match first_child_of(tree@, old(self).at()) {
                        Some(c) => c,
                        None => old(self).at(),
                    },
                    mark_branches,
                )
            },
    {
        if hydration_failed(tree) {
            return;
        }
        match tree.first_child(self.node) {
            Some(c) => {
                self.node = c;
            },
            None => {},
        }
        self.skip_markers(tree, mark_branches);
    }

    /// Moves to the next sibling of the node the cursor is at (staying if it has none),
    /// then past branch markers. Does nothing once hydration has failed.
    pub fn sibling(&mut self, tree: &DomTree, mark_branches: bool)
        ensures
            final(self).at() == if tree@.failed {
                old(self).at()
            } else {
                past_markers(
                    tree@,
                    match next_sibling_of(tree@, old(self).at()) {
                        Some(s) => s,
                        None => old(self).at(),
                    },
                    mark_branches,
                )
            },
    {
        if hydration_failed(tree) {
            return;
        }
        match tree.next_sibling(self.node) {
            Some(s) => {
                self.node = s;
            },
            None => {},
        }
        self.skip_markers(tree, mark_branches);
    }

    /// Moves to the parent of the node the cursor is at, if it has one. Does nothing once
    /// hydration has failed.
    pub fn parent(&mut self, tree: &DomTree)
        ensures
            final(self).at() == if tree@.failed {
                old(self).at()
            } else {
                match parent_of(tree@, old(self).at()) {
                    Some(p) => p,
                    None => old(self).at(),
                }
            },
    {
        if hydration_failed(tree) {
            return;
        }
        match tree.parent(self.node) {
            Some(p) => {
                self.node = p;
            },
            None => {},
        }
    }

    /// Moves the cursor to `node`. Does nothing once hydration has failed.
    pub fn set(&mut self, tree: &DomTree, node: usize)
        ensures
            final(self).at() == if tree@.failed {
                old(self).at()
            } else {
                node
            },
    {
        if hydration_failed(tree) {
            return;
        }
        self.node = node;
    }

    /// Moves to the next placeholder: the first child if the view's first node goes there,
    /// else the next sibling; the node after it goes next.
    pub fn advance_to_placeholder(&mut self, tree: &DomTree, position: &mut Position, mark_branches: bool)
        ensures
            *final(position) == Position::NextChild,
            final(self).at() == if tree@.failed {
                old(self).at()
            } else {
                past_markers(
                    tree@,
                    if *old(position) == Position::FirstChild {
                        match first_child_of(tree@, old(self).at()) {
                            Some(c) => c,
                            None => old(self).at(),
                        }
                    } else {
                        match next_sibling_of(tree@, old(self).at()) {
                            Some(s) => s,
                            None => old(self).at(),
                        }
                    },
                    mark_branches,
                )
            },
    {
        match *position {
            Position::FirstChild => self.child(tree, mark_branches),
            _ => self.sibling(tree, mark_branches),
        }
        *position = Position::NextChild;
    }

    /// Moves to the next placeholder and returns it: the comment there, or, if there is
    /// none, a placeholder made anew, with the mismatch reported (see [`report_mismatch`]).
    pub fn next_placeholder(
        &mut self,
        tree: &mut DomTree,
        position: &mut Position,
        mark_branches: bool,
        hydrating: &str,
    ) -> (placeholder: Placeholder)
        ensures
            *final(position) == Position::NextChild,
            (final(self).at() == if old(tree)@.failed {
                    old(self).at()
                } else {
                    past_markers(
                        old(tree)@,
                        if *old(position) == Position::FirstChild {
                            match first_child_of(old(tree)@, old(self).at()) {
                                Some(c) => c,
                                None => old(self).at(),
                            }
                        } else {
                            match next_sibling_of(old(tree)@, old(self).at()) {
                                Some(s) => s,
                                None => old(self).at(),
                            }
                        },
                        mark_branches,
                    )
                }),
            ({
                let found = if old(tree)@.failed {
                    None
                } else {
                    Some(final(self).at())
                };
                match placeholder {
                    Placeholder::Found(i) => {
                        &&& found == Some(i)
                        &&& kind_at(old(tree)@, found) is Comment
                        &&& final(tree)@ == old(tree)@
                    },
                    Placeholder::Created { report } => {
                        &&& !(kind_at(old(tree)@, found) is Comment)
                        &&& (report is Some <==> !old(tree)@.failed)
                        &&& (report matches Some(message) ==> message@ == mismatch_message(
                            hydrating@,
                            "a marker (comment) node"@,
                            old(tree)@,
                            found,
                        ))
                        &&& final(tree)@ == (DomView { failed: true, ..old(tree)@ })
                    },
                }
            }),
    {
        self.advance_to_placeholder(tree, position, mark_branches);
        let marker = self.current(tree);
        let is_comment = match marker {
            Some(i) => match tree.kind(i) {
                Some(NodeKind::Comment(_)) => true,
                _ => false,
            },
            None => false,
        };
        if is_comment {
            match marker {
                Some(i) => Placeholder::Found(i),
                None => Placeholder::Created { report: None },
            }
        } else {
            let report = report_mismatch(tree, "a marker (comment) node", marker, hydrating);
            Placeholder::Created { report }
        }
    }
}

/// The placeholder (a comment) that a view found where the cursor moved, or, where there
/// was none, one made anew, with the report of the mismatch if it was the first.
#[derive(Debug)]
pub enum Placeholder {
    /// The comment node the cursor is at.
    Found(usize),
    /// A placeholder made anew.
    Created { report: Option<String> },
}


} // verus!
