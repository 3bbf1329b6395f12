//! The table of contents: a document's bookmark tree flattened into a list
//! of entries with their depths, as the side panel shows it.

use vstd::prelude::*;

verus! {

/// Entries nested deeper than this are left out.
pub const TOC_MAX_DEPTH: usize = 32;

/// At most this many entries are collected.
pub const TOC_MAX_ENTRIES: usize = 10000;

/// A bookmark of a document: its title, the page it leads to (if any), and
/// the bookmarks nested under it.
pub struct Bookmark {
    pub title: String,
    pub page: Option<usize>,
    pub children: Vec<Bookmark>,
}

/// One line of the table of contents.
pub struct TocEntry {
    /// Nesting depth; top-level bookmarks have depth 0.
    pub depth: usize,
    pub title: String,
    pub page: Option<usize>,
}

impl View for TocEntry {
    type V = (usize, Seq<char>, Option<usize>);

    open spec fn view(&self) -> (usize, Seq<char>, Option<usize>) {
        (self.depth, self.title@, self.page)
    }
}

/// The views of a list of entries.
pub open spec fn entries_view(v: Seq<TocEntry>) -> Seq<(usize, Seq<char>, Option<usize>)> {
    v.map_values(|e: TocEntry| e@)
}

/// The entries after visiting `node` at `depth`: nothing is added when the
/// node is too deep or the list is full; otherwise the node's entry is
/// appended and its children are visited one level deeper.
pub open spec fn walk_spec(
    node: Bookmark,
    depth: int,
    out: Seq<(usize, Seq<char>, Option<usize>)>,
) -> Seq<(usize, Seq<char>, Option<usize>)>
    decreases node,
{
    if depth < 0 || depth > TOC_MAX_DEPTH || out.len() >= TOC_MAX_ENTRIES {
        out
    } else {
        walk_list_spec(node.children@, depth + 1, out.push((depth as usize, node.title@, node.page)))
    }
}

/// The entries after visiting the bookmarks `nodes` in order, all at `depth`.
pub open spec fn walk_list_spec(
    nodes: Seq<Bookmark>,
    depth: int,
    out: Seq<(usize, Seq<char>, Option<usize>)>,
) -> Seq<(usize, Seq<char>, Option<usize>)>
    decreases nodes,
{
    if nodes.len() == 0 {
        out
    } else {
        walk_list_spec(nodes.drop_first(), depth, walk_spec(nodes[0], depth, out))
    }
}


fn walk_bookmark(node: &Bookmark, depth: usize, out: &mut Vec<TocEntry>)
    ensures
        entries_view(final(out)@) == walk_spec(*node, depth as int, entries_view(old(out)@)),
    decreases node,
{
    if depth > TOC_MAX_DEPTH || out.len() >= TOC_MAX_ENTRIES {
        return;
    }
    let ghost before = entries_view(out@);
    out.push(TocEntry { depth, title: node.title.clone(), page: node.page });
    proof {
        assert(entries_view(out@) =~= before.push((depth, node.title@, node.page)));
    }
    let children = &node.children;
    let ghost start = entries_view(out@);
    let n = children.len();
    let mut i: usize = 0;
    proof {
        assert(children@.skip(0) =~= children@);
    }
    while i < n
        invariant
            n == children@.len(),
            i <= n,
            depth <= TOC_MAX_DEPTH,
            children == &node.children,
            walk_list_spec(children@, depth + 1, start) == walk_list_spec(
                children@.skip(i as int),
                depth + 1,
                entries_view(out@),
            ),
        decreases n - i,
    {
        proof {
            assert(children@.skip(i as int).drop_first() =~= children@.skip(i as int + 1));
            assert(children@.skip(i as int)[0] == children@[i as int]);
            assert(decreases_to!(*node => node.children@[i as int]));
        }
        walk_bookmark(&children[i], depth + 1, out);
        i = i + 1;
    }
    proof {
        assert(children@.skip(n as int) =~= Seq::<Bookmark>::empty());
    }
}

/// Flattens a bookmark forest into table-of-contents entries, depth first,
/// each bookmark before its children. Bookmarks deeper than
/// `TOC_MAX_DEPTH` are left out, and collection stops at `TOC_MAX_ENTRIES`.
pub fn extract_toc(roots: &Vec<Bookmark>) -> (r: Vec<TocEntry>)
    ensures
        entries_view(r@) == walk_list_spec(roots@, 0, Seq::empty()),
{
    let mut out: Vec<TocEntry> = Vec::new();
    let n = roots.len();
    let mut i: usize = 0;
    proof {
        assert(roots@.skip(0) =~= roots@);
        assert(entries_view(out@) =~= Seq::empty());
    }
    while i < n
        invariant
            n == roots@.len(),
            i <= n,
            walk_list_spec(roots@, 0, Seq::empty()) == walk_list_spec(
                roots@.skip(i as int),
                0,
                entries_view(out@),
            ),
        decreases n - i,
    {
        proof {
            assert(roots@.skip(i as int).drop_first() =~= roots@.skip(i as int + 1));
            assert(roots@.skip(i as int)[0] == roots@[i as int]);
        }
        walk_bookmark(&roots[i], 0, &mut out);
        i = i + 1;
    }
    proof {
        assert(roots@.skip(n as int) =~= Seq::<Bookmark>::empty());
    }
    out
}

/// Whether every entry is at most `TOC_MAX_DEPTH` deep, there are at most
/// `TOC_MAX_ENTRIES` of them, and `prefix` is where they start.
pub open spec fn toc_bounded(
    out: Seq<(usize, Seq<char>, Option<usize>)>,
    prefix: Seq<(usize, Seq<char>, Option<usize>)>,
) -> bool {
    &&& out.len() <= TOC_MAX_ENTRIES
    &&& forall|i: int| 0 <= i < out.len() ==> (#[trigger] out[i]).0 <= TOC_MAX_DEPTH
    &&& prefix.len() <= out.len()
    &&& out.subrange(0, prefix.len() as int) == prefix
}

proof fn lemma_walk_bounded(node: Bookmark, depth: int, out: Seq<(usize, Seq<char>, Option<usize>)>)
    requires
        toc_bounded(out, out),
    ensures
        toc_bounded(walk_spec(node, depth, out), out),
    decreases node, 1int,
{
    if !(depth < 0 || depth > TOC_MAX_DEPTH || out.len() >= TOC_MAX_ENTRIES) {
        let pushed = out.push((depth as usize, node.title@, node.page));
        assert(pushed.subrange(0, pushed.len() as int) =~= pushed);
        lemma_walk_list_bounded(node.children@, depth + 1, pushed);
        let r = walk_spec(node, depth, out);
        assert(r.subrange(0, out.len() as int) =~= pushed.subrange(0, out.len() as int));
        assert(pushed.subrange(0, out.len() as int) =~= out);
    } else {
        assert(out.subrange(0, out.len() as int) =~= out);
    }
}

proof fn lemma_walk_list_bounded(
    nodes: Seq<Bookmark>,
    depth: int,
    out: Seq<(usize, Seq<char>, Option<usize>)>,
)
    requires
        toc_bounded(out, out),
    ensures
        toc_bounded(walk_list_spec(nodes, depth, out), out),
    decreases nodes, 0int,
{
    if nodes.len() > 0 {
        lemma_walk_bounded(nodes[0], depth, out);
        let mid = walk_spec(nodes[0], depth, out);
        assert(mid.subrange(0, mid.len() as int) =~= mid);
        lemma_walk_list_bounded(nodes.drop_first(), depth, mid);
        let r = walk_list_spec(nodes, depth, out);
        assert(r.subrange(0, out.len() as int) =~= r.subrange(0, mid.len() as int).subrange(
            0,
            out.len() as int,
        ));
    } else {
        assert(out.subrange(0, out.len() as int) =~= out);
    }
}

/// A table of contents never holds more than `TOC_MAX_ENTRIES` entries, and
/// none of them is nested deeper than `TOC_MAX_DEPTH`.
pub proof fn lemma_toc_bounded(roots: Seq<Bookmark>)
    ensures
        walk_list_spec(roots, 0, Seq::empty()).len() <= TOC_MAX_ENTRIES,
        forall|i: int|
            0 <= i < walk_list_spec(roots, 0, Seq::empty()).len() ==> (#[trigger] walk_list_spec(
                roots,
                0,
                Seq::empty(),
            )[i]).0 <= TOC_MAX_DEPTH,
{
    let e = Seq::<(usize, Seq<char>, Option<usize>)>::empty();
    assert(e.subrange(0, 0) =~= e);
    lemma_walk_list_bounded(roots, 0, e);
}

// ---------------------------------------------------------------------------
// Every bookmark within the limits is listed
// ---------------------------------------------------------------------------

/// The entries of a bookmark and everything nested under it, depth first,
/// with no limit on depth or count: the bookmark's own entry at `depth`,
/// then those of its children one level deeper.
pub open spec fn bookmark_entries(node: Bookmark, depth: int) -> Seq<(usize, Seq<char>, Option<usize>)>
    decreases node,
{
    seq![(depth as usize, node.title@, node.page)] + forest_entries(node.children@, depth + 1)
}

/// The entries of the bookmarks `nodes`, one after another, all at `depth`.
pub open spec fn forest_entries(nodes: Seq<Bookmark>, depth: int) -> Seq<(usize, Seq<char>, Option<usize>)>
    decreases nodes,
{
    if nodes.len() == 0 {
        Seq::empty()
    } else {
        bookmark_entries(nodes[0], depth) + forest_entries(nodes.drop_first(), depth)
    }
}

/// The number of bookmarks in a bookmark's subtree, itself included.
pub open spec fn bookmark_count(node: Bookmark) -> nat
    decreases node,
{
    1 + forest_count(node.children@)
}

/// The number of bookmarks in a forest.
pub open spec fn forest_count(nodes: Seq<Bookmark>) -> nat
    decreases nodes,
{
    if nodes.len() == 0 {
        0
    } else {
        bookmark_count(nodes[0]) + forest_count(nodes.drop_first())
    }
}

/// The number of levels of a bookmark's subtree (1 for a bookmark without children).
pub open spec fn bookmark_levels(node: Bookmark) -> nat
    decreases node,
{
    1 + forest_levels(node.children@)
}

/// The number of levels of a forest (0 when it is empty).
pub open spec fn forest_levels(nodes: Seq<Bookmark>) -> nat
    decreases nodes,
{
    if nodes.len() == 0 {
        0
    } else {
        let first = bookmark_levels(nodes[0]);
        let rest = forest_levels(nodes.drop_first());
        if first >= rest { first } else { rest }
    }
}

proof fn lemma_walk_complete(node: Bookmark, depth: int, out: Seq<(usize, Seq<char>, Option<usize>)>)
    requires
        0 <= depth,
        depth + bookmark_levels(node) <= TOC_MAX_DEPTH + 1,
        out.len() + bookmark_count(node) <= TOC_MAX_ENTRIES,
    ensures
        walk_spec(node, depth, out) == out + bookmark_entries(node, depth),
        bookmark_entries(node, depth).len() == bookmark_count(node),
    decreases node, 1int,
{
    let pushed = out.push((depth as usize, node.title@, node.page));
    lemma_walk_list_complete(node.children@, depth + 1, pushed);
    assert(pushed + forest_entries(node.children@, depth + 1) =~= out + bookmark_entries(node, depth));
}

proof fn lemma_walk_list_complete(
    nodes: Seq<Bookmark>,
    depth: int,
    out: Seq<(usize, Seq<char>, Option<usize>)>,
)
    requires
        0 <= depth,
        depth + forest_levels(nodes) <= TOC_MAX_DEPTH + 1,
        out.len() + forest_count(nodes) <= TOC_MAX_ENTRIES,
    ensures
        walk_list_spec(nodes, depth, out) == out + forest_entries(nodes, depth),
        forest_entries(nodes, depth).len() == forest_count(nodes),
    decreases nodes, 0int,
{
    if nodes.len() == 0 {
        assert(out + forest_entries(nodes, depth) =~= out);
    } else {
        lemma_walk_complete(nodes[0], depth, out);
        let mid = walk_spec(nodes[0], depth, out);
        lemma_walk_list_complete(nodes.drop_first(), depth, mid);
        assert(mid + forest_entries(nodes.drop_first(), depth) =~= out + forest_entries(nodes, depth));
    }
}

/// When the bookmark tree fits the limits (no more than `TOC_MAX_DEPTH + 1`
/// levels, no more than `TOC_MAX_ENTRIES` bookmarks), the table of contents
/// lists every bookmark exactly once, depth first, each one before the
/// bookmarks nested under it, whatever page each leads to.
pub proof fn lemma_toc_lists_every_bookmark(roots: Seq<Bookmark>)
    requires
        forest_levels(roots) <= TOC_MAX_DEPTH + 1,
        forest_count(roots) <= TOC_MAX_ENTRIES,
    ensures
        walk_list_spec(roots, 0, Seq::empty()) == forest_entries(roots, 0),
        walk_list_spec(roots, 0, Seq::empty()).len() == forest_count(roots),
{
    let e = Seq::<(usize, Seq<char>, Option<usize>)>::empty();
    lemma_walk_list_complete(roots, 0, e);
    assert(e + forest_entries(roots, 0) =~= forest_entries(roots, 0));
}

proof fn lemma_walk_extends(node: Bookmark, depth: int, out: Seq<(usize, Seq<char>, Option<usize>)>)
    ensures
        out.len() <= walk_spec(node, depth, out).len(),
        walk_spec(node, depth, out).subrange(0, out.len() as int) == out,
    decreases node, 1int,
{
    if !(depth < 0 || depth > TOC_MAX_DEPTH || out.len() >= TOC_MAX_ENTRIES) {
        let pushed = out.push((depth as usize, node.title@, node.page));
        lemma_walk_list_extends(node.children@, depth + 1, pushed);
        let r = walk_spec(node, depth, out);
        assert(r.subrange(0, out.len() as int) =~= r.subrange(0, pushed.len() as int).subrange(
            0,
            out.len() as int,
        ));
        assert(pushed.subrange(0, out.len() as int) =~= out);
    } else {
        assert(out.subrange(0, out.len() as int) =~= out);
    }
}

proof fn lemma_walk_list_extends(
    nodes: Seq<Bookmark>,
    depth: int,
    out: Seq<(usize, Seq<char>, Option<usize>)>,
)
    ensures
        out.len() <= walk_list_spec(nodes, depth, out).len(),
        walk_list_spec(nodes, depth, out).subrange(0, out.len() as int) == out,
    decreases nodes, 0int,
{
    if nodes.len() > 0 {
        lemma_walk_extends(nodes[0], depth, out);
        let mid = walk_spec(nodes[0], depth, out);
        lemma_walk_list_extends(nodes.drop_first(), depth, mid);
        let r = walk_list_spec(nodes, depth, out);
        assert(r.subrange(0, out.len() as int) =~= r.subrange(0, mid.len() as int).subrange(
            0,
            out.len() as int,
        ));
    } else {
        assert(out.subrange(0, out.len() as int) =~= out);
    }
}

/// A bookmark within the limits is listed where the walk reaches it, and when
/// it is not at the deepest level and there is room for one more entry, its
/// first child is listed right after it, whether or not the bookmark leads to
/// a page.
pub proof fn lemma_toc_child_follows_parent(
    node: Bookmark,
    depth: int,
    out: Seq<(usize, Seq<char>, Option<usize>)>,
)
    requires
        0 <= depth <= TOC_MAX_DEPTH,
        out.len() < TOC_MAX_ENTRIES,
    ensures
        walk_spec(node, depth, out).len() > out.len(),
        walk_spec(node, depth, out)[out.len() as int] == (depth as usize, node.title@, node.page),
        depth < TOC_MAX_DEPTH && out.len() + 1 < TOC_MAX_ENTRIES && node.children@.len() > 0 ==> {
            &&& walk_spec(node, depth, out).len() > out.len() + 1
            &&& walk_spec(node, depth, out)[out.len() + 1int] == (
                (depth + 1) as usize,
                node.children@[0].title@,
                node.children@[0].page,
            )
        },
{
    let pushed = out.push((depth as usize, node.title@, node.page));
    lemma_walk_list_extends(node.children@, depth + 1, pushed);
    let r = walk_spec(node, depth, out);
    assert(r[out.len() as int] == r.subrange(0, pushed.len() as int)[out.len() as int]);
    if depth < TOC_MAX_DEPTH && out.len() + 1 < TOC_MAX_ENTRIES && node.children@.len() > 0 {
        let c = node.children@;
        let first = walk_spec(c[0], depth + 1, pushed);
        let entry = ((depth + 1) as usize, c[0].title@, c[0].page);
        lemma_walk_list_extends(c[0].children@, depth + 2, pushed.push(entry));
        assert(first.subrange(0, pushed.len() + 1int) == pushed.push(entry));
        lemma_walk_list_extends(c.drop_first(), depth + 1, first);
        assert(r == walk_list_spec(c.drop_first(), depth + 1, first));
        assert(r[out.len() + 1int] == r.subrange(0, first.len() as int)[out.len() + 1int]);
        assert(first[out.len() + 1int] == first.subrange(0, pushed.len() + 1int)[out.len() + 1int]);
    }
}

} // verus!
