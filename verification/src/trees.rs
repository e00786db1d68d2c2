//! Path-hierarchy reports: flat lists of named entries arranged as trees by
//! splitting each name on path separators. Every non-final segment becomes
//! (or reuses) an internal node, the final segment a leaf carrying the
//! entry's payload; the first entry to reach a node fixes it. Children are
//! sorted by name for deterministic output.

use vstd::prelude::*;
use vstd::string::StrSliceExecFns;
use vstd::string::StringSliceAdditionalSpecFns;
use vstd::utf8::encode_utf8;

use crate::model::ChangeCouplingEntry;
use crate::model::HotspotEntry;
use crate::model::MainDeveloperEntry;
use crate::sorting::sort_records;
use crate::sorting::SortOrder;
use crate::text::lex_le_bytes;
use crate::text::lemma_lex_le_total;
use crate::text::lemma_lex_le_trans;
use crate::text::str_le;

verus! {

/// Index of the first `'/'` at or after `pos`, or the length.
pub open spec fn first_slash_from(s: Seq<char>, pos: int) -> int
    decreases s.len() - pos,
{
    if pos < 0 || pos >= s.len() {
        s.len() as int
    } else if s[pos] == '/' {
        pos
    } else {
        first_slash_from(s, pos + 1)
    }
}

proof fn lemma_first_slash_bounds(s: Seq<char>, pos: int)
    requires
        0 <= pos <= s.len(),
    ensures
        pos <= first_slash_from(s, pos) <= s.len(),
    decreases s.len() - pos,
{
    if pos < s.len() && s[pos] != '/' {
        lemma_first_slash_bounds(s, pos + 1);
    }
}

/// The path segments of a name from `pos` on: the pieces between `/`
/// separators, empty pieces dropped.
pub open spec fn segments_from(s: Seq<char>, pos: int) -> Seq<Seq<char>>
    decreases s.len() - pos,
    via segments_from_decreases
{
    if pos < 0 || pos >= s.len() {
        Seq::empty()
    } else {
        let j = first_slash_from(s, pos);
        let piece = s.subrange(pos, j);
        let rest = if j >= s.len() {
            Seq::<Seq<char>>::empty()
        } else {
            segments_from(s, j + 1)
        };
        if piece.len() == 0 {
            rest
        } else {
            seq![piece] + rest
        }
    }
}

#[via_fn]
proof fn segments_from_decreases(s: Seq<char>, pos: int) {
    if !(pos < 0 || pos >= s.len()) {
        lemma_first_slash_bounds(s, pos);
    }
}

/// The path segments of a whole name.
pub open spec fn path_segments(s: Seq<char>) -> Seq<Seq<char>> {
    segments_from(s, 0)
}

/// Splits a name into its path segments.
pub fn split_segments(s: &str) -> (r: Vec<String>)
    ensures
        r.deep_view() == path_segments(s@),
{
    let n = s.unicode_len();
    let mut r: Vec<String> = Vec::new();
    proof {
        assert(r.deep_view() + segments_from(s@, 0) =~= path_segments(s@));
    }
    let mut pos: usize = 0;
    while pos < n
        invariant
            n == s@.len(),
            0 <= pos <= n,
            path_segments(s@) == r.deep_view() + segments_from(s@, pos as int),
        decreases n - pos,
    {
        let ghost prev = r.deep_view();
        proof {
            lemma_first_slash_bounds(s@, pos as int);
        }
        let mut j: usize = pos;
        while j < n && s.get_char(j) != '/'
            invariant
                n == s@.len(),
                pos <= j <= n,
                first_slash_from(s@, pos as int) == first_slash_from(s@, j as int),
            decreases n - j,
        {
            j += 1;
        }
        assert(first_slash_from(s@, pos as int) == j as int);
        if j > pos {
            let piece = s.substring_char(pos, j);
            r.push(piece.to_owned());
            proof {
                assert(r.deep_view() =~= prev + seq![r@.last()@]);
            }
        }
        if j < n {
            proof {
                assert(path_segments(s@) =~= r.deep_view() + segments_from(s@, j + 1));
            }
            pos = j + 1;
        } else {
            proof {
                assert(segments_from(s@, n as int) =~= Seq::<Seq<char>>::empty());
                assert(path_segments(s@) =~= r.deep_view() + segments_from(s@, n as int));
            }
            pos = n;
        }
    }
    proof {
        assert(segments_from(s@, pos as int) =~= Seq::<Seq<char>>::empty());
        assert(r.deep_view() =~= path_segments(s@));
    }
    r
}

/// Byte-lexicographic order on names, the order children are sorted in.
pub open spec fn name_le(a: Seq<char>, b: Seq<char>) -> bool {
    lex_le_bytes(encode_utf8(a), encode_utf8(b))
}

/// A hotspot report arranged by path: internal nodes for directories, one
/// leaf per entity. A leaf carries the entity's size and its revision and
/// author counts together with the largest such counts of the whole report,
/// from which a caller derives the relative weights.
pub enum HotspotTree {
    /// An internal node with its sorted children.
    Tree { name: String, children: Vec<HotspotTree> },
    /// One entity of the report.
    Leaf {
        name: String,
        size: u64,
        num_revisions: u64,
        max_revisions: u64,
        num_authors: u64,
        max_authors: u64,
    },
}

/// The name of a node.
pub open spec fn hotspot_name(t: HotspotTree) -> Seq<char> {
    match t {
        HotspotTree::Tree { name, .. } => name@,
        HotspotTree::Leaf { name, .. } => name@,
    }
}

/// Children are sorted by name at every level.
pub open spec fn hotspot_sorted(t: HotspotTree) -> bool
    decreases t,
{
    match t {
        HotspotTree::Tree { children, .. } => {
            &&& forall|i: int, j: int|
                0 <= i <= j < children@.len() ==> name_le(
                    hotspot_name(#[trigger] children@[i]),
                    hotspot_name(#[trigger] children@[j]),
                )
            &&& forall|i: int|
                0 <= i < children@.len() ==> hotspot_sorted(#[trigger] children@[i])
        },
        HotspotTree::Leaf { .. } => true,
    }
}

/// Sorting a list of converted children preserves what each child presents:
/// every output child presents some input child and every input child is
/// presented, sortedness of the subtrees carries over, and with pairwise
/// distinct input names so are the output names and subtrees' distinctness.
#[verifier::rlimit(100)]
#[verifier::spinoff_prover]
proof fn lemma_hotspot_assemble(
    cviews: Seq<RawHotspotTreeV>,
    pre: Seq<HotspotTree>,
    post: Seq<HotspotTree>,
)
    requires
        pre.to_multiset() == post.to_multiset(),
        pre.len() == cviews.len(),
        post.len() == pre.len(),
        forall|i: int| 0 <= i < pre.len() ==> hotspot_converted(cviews[i], #[trigger] pre[i]),
        forall|i: int| 0 <= i < pre.len() ==> hotspot_name(#[trigger] pre[i]) == hv_name(cviews[i]),
        forall|i: int| 0 <= i < pre.len() ==> hotspot_sorted(#[trigger] pre[i]),
        forall|i: int|
            0 <= i < pre.len() ==> (hv_children_distinct(cviews[i]) ==> hotspot_children_distinct(
                #[trigger] pre[i],
            )),
    ensures
        forall|i: int| 0 <= i < post.len() ==> hotspot_sorted(#[trigger] post[i]),
        forall|i: int| 0 <= i < post.len() ==> hotspot_presented(cviews, #[trigger] post[i]),
        forall|j: int| 0 <= j < cviews.len() ==> hotspot_included(post, #[trigger] cviews[j]),
        ((forall|i: int, j: int|
            0 <= i < cviews.len() && 0 <= j < cviews.len() && i != j ==> hv_name(
                #[trigger] cviews[i],
            ) != hv_name(#[trigger] cviews[j])) && (forall|i: int|
            0 <= i < cviews.len() ==> hv_children_distinct(#[trigger] cviews[i]))) ==> ((forall|
            i: int,
            j: int,
        |
            0 <= i < post.len() && 0 <= j < post.len() && i != j ==> hotspot_name(
                #[trigger] post[i],
            ) != hotspot_name(#[trigger] post[j])) && (forall|i: int|
            0 <= i < post.len() ==> hotspot_children_distinct(#[trigger] post[i]))),
{
    crate::sorting::lemma_multiset_perm_facts(pre, post);
    assert forall|i: int| 0 <= i < post.len() implies hotspot_sorted(#[trigger] post[i]) by {
        assert(pre.contains(post[i]));
        let k2 = choose|k2: int| 0 <= k2 < pre.len() && pre[k2] == post[i];
        assert(hotspot_sorted(pre[k2]));
    }
    assert forall|i: int| 0 <= i < post.len() implies hotspot_presented(
        cviews,
        #[trigger] post[i],
    ) by {
        assert(pre.contains(post[i]));
        let k2 = choose|k2: int| 0 <= k2 < pre.len() && pre[k2] == post[i];
        assert(0 <= k2 < cviews.len() && hotspot_converted(cviews[k2], post[i]));
    }
    assert forall|j: int| 0 <= j < cviews.len() implies hotspot_included(
        post,
        #[trigger] cviews[j],
    ) by {
        assert(post.contains(pre[j]));
        let i = choose|i: int| 0 <= i < post.len() && post[i] == pre[j];
        assert(0 <= i < post.len() && hotspot_converted(cviews[j], post[i]));
    }
    if (forall|i: int, j: int|
        0 <= i < cviews.len() && 0 <= j < cviews.len() && i != j ==> hv_name(#[trigger] cviews[i])
            != hv_name(#[trigger] cviews[j])) && (forall|i: int|
        0 <= i < cviews.len() ==> hv_children_distinct(#[trigger] cviews[i])) {
        assert forall|i: int, j: int|
            0 <= i < pre.len() && 0 <= j < pre.len() && i != j implies hotspot_name(
            #[trigger] pre[i],
        ) != hotspot_name(#[trigger] pre[j]) by {
            assert(hotspot_name(pre[i]) == hv_name(cviews[i]));
            assert(hotspot_name(pre[j]) == hv_name(cviews[j]));
        }
        crate::sorting::lemma_key_distinct_transfer(pre, post, |t: HotspotTree| hotspot_name(t));
        assert forall|i: int, j: int|
            0 <= i < post.len() && 0 <= j < post.len() && i != j implies hotspot_name(
            #[trigger] post[i],
        ) != hotspot_name(#[trigger] post[j]) by {
            let keyf = |t: HotspotTree| hotspot_name(t);
            assert(keyf(post[i]) != keyf(post[j]));
        }
        assert forall|i: int| 0 <= i < post.len() implies hotspot_children_distinct(
            #[trigger] post[i],
        ) by {
            assert(pre.contains(post[i]));
            let k2 = choose|k2: int| 0 <= k2 < pre.len() && pre[k2] == post[i];
            assert(hv_children_distinct(cviews[k2]));
        }
    }
}

impl SortOrder for HotspotTree {
    open spec fn le_spec(a: &HotspotTree, b: &HotspotTree) -> bool {
        name_le(hotspot_name(*b), hotspot_name(*a))
    }

    fn le(a: &HotspotTree, b: &HotspotTree) -> (r: bool) {
        let an = a.name();
        let bn = b.name();
        str_le(bn, an)
    }

    proof fn le_total(a: &HotspotTree, b: &HotspotTree) {
        lemma_lex_le_total(encode_utf8(hotspot_name(*a)), encode_utf8(hotspot_name(*b)));
    }

    proof fn le_trans(a: &HotspotTree, b: &HotspotTree, c: &HotspotTree) {
        lemma_lex_le_trans(
            encode_utf8(hotspot_name(*c)),
            encode_utf8(hotspot_name(*b)),
            encode_utf8(hotspot_name(*a)),
        );
    }
}

impl HotspotTree {
    /// The node's name.
    pub fn name(&self) -> (r: &str)
        ensures
            r@ == hotspot_name(*self),
    {
        match self {
            HotspotTree::Tree { name, .. } => name.as_str(),
            HotspotTree::Leaf { name, .. } => name.as_str(),
        }
    }

    /// Arranges a hotspot report as a tree, presenting `hotspot_tree_model`
    /// of the entries with the children of every node sorted by name — the
    /// names being pairwise distinct, strictly ascending. The root is an
    /// internal node named `root`.
    pub fn from_vec(hotspots: &Vec<HotspotEntry>) -> (r: HotspotTree)
        ensures
            hotspot_converted(hotspot_tree_model(hotspots@), r),
            hotspot_children_distinct(r),
            hotspot_sorted(r),
            r is Tree,
            hotspot_name(r) == "root"@,
    {
        proof {
            lemma_hotspot_model_distinct(hotspots@);
        }
        HotspotTree::from_raw(RawHotspotTree::from_vec(hotspots))
    }

    /// Sorts the children of every node of a built tree by name.
    #[verifier::rlimit(100)]
    #[verifier::spinoff_prover]
    pub fn from_raw(root: RawHotspotTree) -> (r: HotspotTree)
        ensures
            hotspot_sorted(r),
            hotspot_name(r) == raw_hotspot_name(root),
            r is Tree <==> root is Tree,
            hotspot_converted(raw_hotspot_view(root), r),
            hv_children_distinct(raw_hotspot_view(root)) ==> hotspot_children_distinct(r),
        decreases root,
    {
        let ghost r0 = root;
        let ghost rootv = raw_hotspot_view(root);
        match root {
            RawHotspotTree::Tree { name, children } => {
                let ghost children0 = children;
                let ghost cviews = raw_hotspot_views(children0@);
                proof {
                    assert(r0 is Tree && r0->Tree_children == children0);
                    assert(rootv == (RawHotspotTreeV::Tree { name: name@, children: cviews }));
                    lemma_raw_hotspot_views(children0@);
                }
                let mut rest = children;
                let mut converted: Vec<HotspotTree> = Vec::new();
                proof {
                    assert(children0@.skip(0) =~= children0@);
                }
                while rest.len() > 0
                    invariant
                        r0 == root,
                        r0 is Tree && r0->Tree_children == children0,
                        cviews == raw_hotspot_views(children0@),
                        cviews.len() == children0@.len(),
                        forall|k2: int|
                            0 <= k2 < children0@.len() ==> cviews[k2] == raw_hotspot_view(
                                #[trigger] children0@[k2],
                            ),
                        converted@.len() + rest@.len() == children0@.len(),
                        rest@ == children0@.skip(converted@.len() as int),
                        forall|i: int|
                            0 <= i < converted@.len() ==> hotspot_sorted(#[trigger] converted@[i]),
                        forall|i: int|
                            0 <= i < converted@.len() ==> hotspot_converted(
                                cviews[i],
                                #[trigger] converted@[i],
                            ),
                        forall|i: int|
                            0 <= i < converted@.len() ==> hotspot_name(#[trigger] converted@[i])
                                == hv_name(cviews[i]),
                        forall|i: int|
                            0 <= i < converted@.len() ==> (hv_children_distinct(cviews[i])
                                ==> hotspot_children_distinct(#[trigger] converted@[i])),
                    decreases rest@.len(),
                {
                    let ghost k = converted@.len() as int;
                    let child = rest.remove(0);
                    proof {
                        assert(child == children0@[k]);
                        assert(decreases_to!(r0 => r0->Tree_children));
                        assert(decreases_to!(children0 => children0@[k]));
                        assert(decreases_to!(r0 => children0@[k]));
                        assert(rest@ =~= children0@.skip(k + 1));
                    }
                    let done = HotspotTree::from_raw(child);
                    proof {
                        lemma_raw_hotspot_view_name(child);
                    }
                    converted.push(done);
                }
                let sorted = sort_records(converted);
                proof {
                    lemma_hotspot_assemble(cviews, converted@, sorted@);
                }
                let r = HotspotTree::Tree { name, children: sorted };
                proof {
                    reveal(hotspot_converted);
                    assert(hotspot_converted(rootv, r));
                    if hv_children_distinct(rootv) {
                        assert(hotspot_children_distinct(r));
                    }
                }
                r
            },
            RawHotspotTree::Leaf { name, size, num_revisions, max_revisions, num_authors, max_authors } => {
                let r = HotspotTree::Leaf {
                    name,
                    size,
                    num_revisions,
                    max_revisions,
                    num_authors,
                    max_authors,
                };
                proof {
                    reveal(hotspot_converted);
                    assert(hotspot_converted(rootv, r));
                }
                r
            },
        }
    }
}

/// A hotspot tree as first built, before its children are sorted.
pub enum RawHotspotTree {
    /// An internal node, children in insertion order.
    Tree { name: String, children: Vec<RawHotspotTree> },
    /// One entity of the report.
    Leaf {
        name: String,
        size: u64,
        num_revisions: u64,
        max_revisions: u64,
        num_authors: u64,
        max_authors: u64,
    },
}

/// The name of a node of the unsorted tree.
pub open spec fn raw_hotspot_name(t: RawHotspotTree) -> Seq<char> {
    match t {
        RawHotspotTree::Tree { name, .. } => name@,
        RawHotspotTree::Leaf { name, .. } => name@,
    }
}

/// Mathematical value of an unsorted hotspot tree.
pub enum RawHotspotTreeV {
    /// An internal node.
    Tree { name: Seq<char>, children: Seq<RawHotspotTreeV> },
    /// One entity of the report.
    Leaf {
        name: Seq<char>,
        size: int,
        num_revisions: int,
        max_revisions: int,
        num_authors: int,
        max_authors: int,
    },
}

/// The name of a node of the mathematical tree.
pub open spec fn hv_name(t: RawHotspotTreeV) -> Seq<char> {
    match t {
        RawHotspotTreeV::Tree { name, .. } => name,
        RawHotspotTreeV::Leaf { name, .. } => name,
    }
}

/// The mathematical value of an unsorted hotspot tree.
pub open spec fn raw_hotspot_view(t: RawHotspotTree) -> RawHotspotTreeV
    decreases t,
    via raw_hotspot_view_decreases
{
    match t {
        RawHotspotTree::Tree { name, children } => RawHotspotTreeV::Tree {
            name: name@,
            children: raw_hotspot_views(children@),
        },
        RawHotspotTree::Leaf {
            name,
            size,
            num_revisions,
            max_revisions,
            num_authors,
            max_authors,
        } => RawHotspotTreeV::Leaf {
            name: name@,
            size: size as int,
            num_revisions: num_revisions as int,
            max_revisions: max_revisions as int,
            num_authors: num_authors as int,
            max_authors: max_authors as int,
        },
    }
}

#[via_fn]
proof fn raw_hotspot_view_decreases(t: RawHotspotTree) {
    match t {
        RawHotspotTree::Tree { name, children } => {
            assert(decreases_to!(t => t->Tree_children));
            assert(decreases_to!(t->Tree_children => t->Tree_children@));
            assert(decreases_to!(t => children@));
        },
        RawHotspotTree::Leaf { .. } => {
        },
    }
}

/// The mathematical values of a child list, in order.
pub open spec fn raw_hotspot_views(cs: Seq<RawHotspotTree>) -> Seq<RawHotspotTreeV>
    decreases cs,
{
    if cs.len() == 0 {
        Seq::empty()
    } else {
        seq![raw_hotspot_view(cs[0])] + raw_hotspot_views(cs.drop_first())
    }
}

/// The values of a child list are the children's values, in order.
pub proof fn lemma_raw_hotspot_views(cs: Seq<RawHotspotTree>)
    ensures
        raw_hotspot_views(cs).len() == cs.len(),
        forall|i: int|
            0 <= i < cs.len() ==> raw_hotspot_views(cs)[i] == raw_hotspot_view(#[trigger] cs[i]),
    decreases cs,
{
    if cs.len() > 0 {
        lemma_raw_hotspot_views(cs.drop_first());
        assert(forall|i: int|
            0 <= i < cs.drop_first().len() ==> #[trigger] cs.drop_first()[i] == cs[i + 1]);
        assert forall|i: int| 0 <= i < cs.len() implies raw_hotspot_views(cs)[i]
            == raw_hotspot_view(#[trigger] cs[i]) by {
            if i == 0 {
                assert(raw_hotspot_views(cs)[0] == raw_hotspot_view(cs[0]));
            } else {
                assert(raw_hotspot_views(cs)[i] == raw_hotspot_views(cs.drop_first())[i - 1]);
                assert(raw_hotspot_views(cs.drop_first())[i - 1] == raw_hotspot_view(
                    cs.drop_first()[i - 1],
                ));
                assert(cs.drop_first()[i - 1] == cs[i]);
            }
        }
    }
}

/// Index of the first child at or after `i` carrying this name, or `-1`.
pub open spec fn hv_child_at(children: Seq<RawHotspotTreeV>, name: Seq<char>, i: int) -> int
    decreases children.len() - i,
{
    if i < 0 || i >= children.len() {
        -1
    } else if hv_name(children[i]) == name {
        i
    } else {
        hv_child_at(children, name, i + 1)
    }
}

/// Index of the first child carrying this name, or `-1`.
pub open spec fn hv_child_index(children: Seq<RawHotspotTreeV>, name: Seq<char>) -> int {
    hv_child_at(children, name, 0)
}

proof fn lemma_hv_child_at_bounds(children: Seq<RawHotspotTreeV>, name: Seq<char>, i: int)
    requires
        0 <= i <= children.len(),
    ensures
        hv_child_at(children, name, i) == -1 || i <= hv_child_at(children, name, i)
            < children.len(),
        hv_child_at(children, name, i) >= 0 ==> hv_name(
            children[hv_child_at(children, name, i)],
        ) == name,
        hv_child_at(children, name, i) == -1 ==> forall|k: int|
            i <= k < children.len() ==> hv_name(#[trigger] children[k]) != name,
    decreases children.len() - i,
{
    if i < children.len() && hv_name(children[i]) != name {
        lemma_hv_child_at_bounds(children, name, i + 1);
    }
}

/// The leaf an entry contributes, beside the report's largest counts.
pub open spec fn hotspot_leaf_v(seg: Seq<char>, e: HotspotEntry, maxr: u64, maxa: u64) -> RawHotspotTreeV {
    RawHotspotTreeV::Leaf {
        name: seg,
        size: e.num_code_lines as int,
        num_revisions: e.num_revisions as int,
        max_revisions: maxr as int,
        num_authors: e.num_authors as int,
        max_authors: maxa as int,
    }
}

/// One entry's insertion below a node, from segment `si` on: non-final
/// segments become (or reuse) internal nodes, the final segment a leaf; an
/// existing node is never overwritten, and segments below an existing leaf
/// are ignored. A reused child moves to the end of its node's child list.
pub open spec fn insert_hotspot_spec(
    node: RawHotspotTreeV,
    segs: Seq<Seq<char>>,
    si: int,
    e: HotspotEntry,
    maxr: u64,
    maxa: u64,
) -> RawHotspotTreeV
    decreases segs.len() - si,
{
    if si < 0 || si >= segs.len() {
        node
    } else {
        match node {
            RawHotspotTreeV::Tree { name, children } => {
                let part = segs[si];
                let is_last = si == segs.len() - 1;
                let f = hv_child_index(children, part);
                if f >= 0 {
                    if !is_last {
                        let child2 = insert_hotspot_spec(children[f], segs, si + 1, e, maxr, maxa);
                        RawHotspotTreeV::Tree {
                            name,
                            children: children.update(f, children.last()).drop_last().push(child2),
                        }
                    } else {
                        RawHotspotTreeV::Tree { name, children }
                    }
                } else {
                    if is_last {
                        RawHotspotTreeV::Tree {
                            name,
                            children: children.push(hotspot_leaf_v(part, e, maxr, maxa)),
                        }
                    } else {
                        let filled = insert_hotspot_spec(
                            RawHotspotTreeV::Tree { name: part, children: Seq::empty() },
                            segs,
                            si + 1,
                            e,
                            maxr,
                            maxa,
                        );
                        RawHotspotTreeV::Tree { name, children: children.push(filled) }
                    }
                }
            },
            RawHotspotTreeV::Leaf { .. } => node,
        }
    }
}

/// The largest revision count among the first `k` entries.
pub open spec fn max_revisions_upto(entries: Seq<HotspotEntry>, k: int) -> u64
    decreases k,
{
    if k <= 0 {
        0
    } else {
        let prev = max_revisions_upto(entries, k - 1);
        if 0 <= k - 1 < entries.len() && entries[k - 1].num_revisions > prev {
            entries[k - 1].num_revisions
        } else {
            prev
        }
    }
}

/// The largest revision count of the report, or zero when it is empty.
pub open spec fn max_revisions_of(entries: Seq<HotspotEntry>) -> u64 {
    max_revisions_upto(entries, entries.len() as int)
}

/// The largest author count among the first `k` entries.
pub open spec fn max_authors_upto(entries: Seq<HotspotEntry>, k: int) -> u64
    decreases k,
{
    if k <= 0 {
        0
    } else {
        let prev = max_authors_upto(entries, k - 1);
        if 0 <= k - 1 < entries.len() && entries[k - 1].num_authors > prev {
            entries[k - 1].num_authors
        } else {
            prev
        }
    }
}

/// The largest author count of the report, or zero when it is empty.
pub open spec fn max_authors_of(entries: Seq<HotspotEntry>) -> u64 {
    max_authors_upto(entries, entries.len() as int)
}

/// The unsorted hotspot tree of the entries from index `k` on, inserted in
/// order below `acc`.
pub open spec fn hotspot_build_from(
    entries: Seq<HotspotEntry>,
    k: int,
    acc: RawHotspotTreeV,
    maxr: u64,
    maxa: u64,
) -> RawHotspotTreeV
    decreases entries.len() - k,
{
    if k < 0 || k >= entries.len() {
        acc
    } else {
        hotspot_build_from(
            entries,
            k + 1,
            insert_hotspot_spec(acc, path_segments(entries[k].name@), 0, entries[k], maxr, maxa),
            maxr,
            maxa,
        )
    }
}

/// The unsorted hotspot tree of a whole report: every entry inserted, in
/// order, at its name's path below a root named `root`, with the report's
/// largest revision and author counts on every leaf.
pub open spec fn hotspot_tree_model(entries: Seq<HotspotEntry>) -> RawHotspotTreeV {
    hotspot_build_from(
        entries,
        0,
        RawHotspotTreeV::Tree { name: "root"@, children: Seq::empty() },
        max_revisions_of(entries),
        max_authors_of(entries),
    )
}

/// Children carry pairwise distinct names, at every node.
pub open spec fn hv_children_distinct(t: RawHotspotTreeV) -> bool
    decreases t,
{
    match t {
        RawHotspotTreeV::Tree { children, .. } => {
            &&& forall|i: int, j: int|
                0 <= i < children.len() && 0 <= j < children.len() && i != j ==> hv_name(
                    #[trigger] children[i],
                ) != hv_name(#[trigger] children[j])
            &&& forall|i: int|
                0 <= i < children.len() ==> hv_children_distinct(#[trigger] children[i])
        },
        RawHotspotTreeV::Leaf { .. } => true,
    }
}

/// Insertion keeps a node's name and variant, and never duplicates a child
/// name.
pub proof fn lemma_insert_hotspot_spec_wf(
    node: RawHotspotTreeV,
    segs: Seq<Seq<char>>,
    si: int,
    e: HotspotEntry,
    maxr: u64,
    maxa: u64,
)
    ensures
        hv_name(insert_hotspot_spec(node, segs, si, e, maxr, maxa)) == hv_name(node),
        insert_hotspot_spec(node, segs, si, e, maxr, maxa) is Tree <==> node is Tree,
        hv_children_distinct(node) ==> hv_children_distinct(
            insert_hotspot_spec(node, segs, si, e, maxr, maxa),
        ),
    decreases segs.len() - si,
{
    let result = insert_hotspot_spec(node, segs, si, e, maxr, maxa);
    if !(si < 0 || si >= segs.len()) && node is Tree {
        let children = node->Tree_children;
        let part = segs[si];
        let is_last = si == segs.len() - 1;
        let f = hv_child_index(children, part);
        lemma_hv_child_at_bounds(children, part, 0);
        if f >= 0 && !is_last {
            lemma_insert_hotspot_spec_wf(children[f], segs, si + 1, e, maxr, maxa);
            let child2 = insert_hotspot_spec(children[f], segs, si + 1, e, maxr, maxa);
            let cs2 = children.update(f, children.last()).drop_last().push(child2);
            assert(result->Tree_children == cs2);
            if hv_children_distinct(node) {
                let n = children.len() as int;
                assert(hv_name(child2) == hv_name(children[f]));
                assert forall|i: int, j: int|
                    0 <= i < cs2.len() && 0 <= j < cs2.len() && i != j implies hv_name(
                    #[trigger] cs2[i],
                ) != hv_name(#[trigger] cs2[j]) by {
                    let oi: int = if i == n - 1 {
                        f
                    } else if i == f {
                        n - 1
                    } else {
                        i
                    };
                    let oj: int = if j == n - 1 {
                        f
                    } else if j == f {
                        n - 1
                    } else {
                        j
                    };
                    assert(hv_name(cs2[i]) == hv_name(children[oi]));
                    assert(hv_name(cs2[j]) == hv_name(children[oj]));
                    assert(oi != oj);
                    assert(hv_name(children[oi]) != hv_name(children[oj]));
                }
                assert forall|i: int| 0 <= i < cs2.len() implies hv_children_distinct(
                    #[trigger] cs2[i],
                ) by {
                    if i == cs2.len() - 1 {
                        assert(hv_children_distinct(children[f]));
                        assert(hv_children_distinct(child2));
                    } else if i == f {
                        assert(cs2[i] == children[n - 1]);
                        assert(hv_children_distinct(children[n - 1]));
                    } else {
                        assert(cs2[i] == children[i]);
                        assert(hv_children_distinct(children[i]));
                    }
                }
                assert(hv_children_distinct(result));
            }
        } else if f >= 0 && is_last {
            assert(result == node);
        } else if f < 0 && is_last {
            let cs2 = children.push(hotspot_leaf_v(part, e, maxr, maxa));
            assert(result->Tree_children == cs2);
            if hv_children_distinct(node) {
                assert forall|i: int, j: int|
                    0 <= i < cs2.len() && 0 <= j < cs2.len() && i != j implies hv_name(
                    #[trigger] cs2[i],
                ) != hv_name(#[trigger] cs2[j]) by {
                    if i < children.len() && j < children.len() {
                        assert(hv_name(children[i]) != hv_name(children[j]));
                    } else {
                        let older: int = if i < children.len() {
                            i
                        } else {
                            j
                        };
                        assert(hv_name(children[older]) != part);
                    }
                }
                assert forall|i: int| 0 <= i < cs2.len() implies hv_children_distinct(
                    #[trigger] cs2[i],
                ) by {
                    if i < children.len() {
                        assert(cs2[i] == children[i]);
                        assert(hv_children_distinct(children[i]));
                    }
                }
                assert(hv_children_distinct(result));
            }
        } else {
            let fresh = RawHotspotTreeV::Tree { name: part, children: Seq::empty() };
            lemma_insert_hotspot_spec_wf(fresh, segs, si + 1, e, maxr, maxa);
            let filled = insert_hotspot_spec(fresh, segs, si + 1, e, maxr, maxa);
            let cs2 = children.push(filled);
            assert(result->Tree_children == cs2);
            if hv_children_distinct(node) {
                assert(hv_children_distinct(fresh));
                assert(hv_children_distinct(filled));
                assert(hv_name(filled) == part);
                assert forall|i: int, j: int|
                    0 <= i < cs2.len() && 0 <= j < cs2.len() && i != j implies hv_name(
                    #[trigger] cs2[i],
                ) != hv_name(#[trigger] cs2[j]) by {
                    if i < children.len() && j < children.len() {
                        assert(hv_name(children[i]) != hv_name(children[j]));
                    } else {
                        let older: int = if i < children.len() {
                            i
                        } else {
                            j
                        };
                        assert(hv_name(children[older]) != part);
                    }
                }
                assert forall|i: int| 0 <= i < cs2.len() implies hv_children_distinct(
                    #[trigger] cs2[i],
                ) by {
                    if i < children.len() {
                        assert(cs2[i] == children[i]);
                        assert(hv_children_distinct(children[i]));
                    }
                }
                assert(hv_children_distinct(result));
            }
        }
    }
}

/// The whole built tree never carries two children with one name under one
/// node: the build map is keyed by name.
pub proof fn lemma_hotspot_model_distinct(entries: Seq<HotspotEntry>)
    ensures
        hv_children_distinct(hotspot_tree_model(entries)),
        hotspot_tree_model(entries) is Tree,
        hv_name(hotspot_tree_model(entries)) == "root"@,
{
    let init = RawHotspotTreeV::Tree { name: "root"@, children: Seq::empty() };
    lemma_hotspot_build_distinct(
        entries,
        0,
        init,
        max_revisions_of(entries),
        max_authors_of(entries),
    );
}

proof fn lemma_hotspot_build_distinct(
    entries: Seq<HotspotEntry>,
    k: int,
    acc: RawHotspotTreeV,
    maxr: u64,
    maxa: u64,
)
    requires
        hv_children_distinct(acc),
    ensures
        hv_children_distinct(hotspot_build_from(entries, k, acc, maxr, maxa)),
        hv_name(hotspot_build_from(entries, k, acc, maxr, maxa)) == hv_name(acc),
        hotspot_build_from(entries, k, acc, maxr, maxa) is Tree <==> acc is Tree,
    decreases entries.len() - k,
{
    if !(k < 0 || k >= entries.len()) {
        lemma_insert_hotspot_spec_wf(acc, path_segments(entries[k].name@), 0, entries[k], maxr, maxa);
        lemma_hotspot_build_distinct(
            entries,
            k + 1,
            insert_hotspot_spec(acc, path_segments(entries[k].name@), 0, entries[k], maxr, maxa),
            maxr,
            maxa,
        );
    }
}

/// The sorted tree `t` presents the built tree `raw`: same name, same
/// variant, equal leaf payloads, and the same children (each child of one
/// presents, or is presented by, a child of the other), recursively.
#[verifier::opaque]
pub open spec fn hotspot_converted(raw: RawHotspotTreeV, t: HotspotTree) -> bool
    decreases raw, 0int,
{
    match raw {
        RawHotspotTreeV::Tree { name, children } => {
            &&& t is Tree
            &&& hotspot_name(t) == name
            &&& t->Tree_children@.len() == children.len()
            &&& forall|i: int|
                0 <= i < t->Tree_children@.len() ==> hotspot_presented(
                    children,
                    #[trigger] t->Tree_children@[i],
                )
            &&& forall|j: int|
                0 <= j < children.len() ==> hotspot_included(
                    t->Tree_children@,
                    #[trigger] children[j],
                )
        },
        RawHotspotTreeV::Leaf { name, size, num_revisions, max_revisions, num_authors, max_authors } => {
            &&& t is Leaf
            &&& hotspot_name(t) == name
            &&& t->Leaf_size == size
            &&& t->Leaf_num_revisions == num_revisions
            &&& t->Leaf_max_revisions == max_revisions
            &&& t->Leaf_num_authors == num_authors
            &&& t->Leaf_max_authors == max_authors
        },
    }
}

/// The node `t` presents one of the built children.
pub open spec fn hotspot_presented(cviews: Seq<RawHotspotTreeV>, t: HotspotTree) -> bool
    decreases cviews, 0int,
{
    exists|j: int| 0 <= j < cviews.len() && hotspot_converted(#[trigger] cviews[j], t)
}

/// The built node `raw` is presented by one of the children.
pub open spec fn hotspot_included(children: Seq<HotspotTree>, raw: RawHotspotTreeV) -> bool
    decreases raw, 1int,
{
    exists|i: int| 0 <= i < children.len() && hotspot_converted(raw, #[trigger] children[i])
}

/// Children of the sorted tree carry pairwise distinct names, at every node:
/// with the sorted order this makes child names strictly ascending.
pub open spec fn hotspot_children_distinct(t: HotspotTree) -> bool
    decreases t,
{
    match t {
        HotspotTree::Tree { children, .. } => {
            &&& forall|i: int, j: int|
                0 <= i < children@.len() && 0 <= j < children@.len() && i != j ==> hotspot_name(
                    #[trigger] children@[i],
                ) != hotspot_name(#[trigger] children@[j])
            &&& forall|i: int|
                0 <= i < children@.len() ==> hotspot_children_distinct(#[trigger] children@[i])
        },
        HotspotTree::Leaf { .. } => true,
    }
}

/// A node's mathematical name is its name.
proof fn lemma_raw_hotspot_view_name(t: RawHotspotTree)
    ensures
        hv_name(raw_hotspot_view(t)) == raw_hotspot_name(t),
        raw_hotspot_view(t) is Tree <==> t is Tree,
{
    match t {
        RawHotspotTree::Tree { .. } => {
        },
        RawHotspotTree::Leaf { .. } => {
        },
    }
}

/// Inserts one entry's payload at its path below the node, as
/// `insert_hotspot_spec` describes: non-final segments become (or reuse)
/// internal nodes, the final segment a leaf. An existing node is never
/// overwritten: the first entry to claim a spot wins, and segments below an
/// existing leaf are ignored.
fn insert_hotspot(
    node: RawHotspotTree,
    segs: &Vec<String>,
    si: usize,
    entry: &HotspotEntry,
    max_revisions: u64,
    max_authors: u64,
) -> (r: RawHotspotTree)
    requires
        si <= segs@.len(),
    ensures
        raw_hotspot_view(r) == insert_hotspot_spec(
            raw_hotspot_view(node),
            segs.deep_view(),
            si as int,
            *entry,
            max_revisions,
            max_authors,
        ),
        raw_hotspot_name(r) == raw_hotspot_name(node),
        r is Tree <==> node is Tree,
    decreases segs@.len() - si,
{
    let ghost nodev = raw_hotspot_view(node);
    let ghost segsv = segs.deep_view();
    if si >= segs.len() {
        return node;
    }
    match node {
        RawHotspotTree::Tree { name, mut children } => {
            proof {
                assert(nodev == (RawHotspotTreeV::Tree {
                    name: name@,
                    children: raw_hotspot_views(children@),
                }));
                lemma_raw_hotspot_views(children@);
            }
            let ghost cviews = raw_hotspot_views(children@);
            let part = &segs[si];
            proof {
                assert(segsv[si as int] == segs@[si as int]@);
            }
            let is_last = si == segs.len() - 1;
            let n = children.len();
            let mut found: Option<usize> = None;
            proof {
                assert(hv_child_index(cviews, part@) == hv_child_at(cviews, part@, 0));
            }
            let mut i: usize = 0;
            while i < n
                invariant
                    n == children@.len(),
                    cviews == raw_hotspot_views(children@),
                    cviews.len() == n,
                    forall|k: int|
                        0 <= k < n ==> cviews[k] == raw_hotspot_view(#[trigger] children@[k]),
                    0 <= i <= n,
                    0 <= si < segsv.len(),
                    part@ == segsv[si as int],
                    match found {
                        Some(f) => f < n && hv_child_index(cviews, part@) == f,
                        None => hv_child_index(cviews, part@) == hv_child_at(
                            cviews,
                            part@,
                            i as int,
                        ),
                    },
                decreases n - i,
            {
                let child_name = children[i].name_raw();
                proof {
                    lemma_raw_hotspot_view_name(children@[i as int]);
                    assert(hv_name(cviews[i as int]) == child_name@);
                }
                if found.is_none() && crate::text::str_eq(child_name, part.as_str()) {
                    found = Some(i);
                }
                i += 1;
            }
            proof {
                if found is None {
                    assert(hv_child_index(cviews, part@) == -1);
                }
            }
            match found {
                Some(f) => {
                    if !is_last {
                        let ghost before = children@;
                        let child = children.swap_remove(f);
                        let ghost child_v = cviews[f as int];
                        proof {
                            assert(child == before[f as int]);
                            assert(raw_hotspot_view(child) == child_v);
                        }
                        let child2 = insert_hotspot(
                            child,
                            segs,
                            si + 1,
                            entry,
                            max_revisions,
                            max_authors,
                        );
                        children.push(child2);
                        proof {
                            lemma_raw_hotspot_views(children@);
                            let target = cviews.update(f as int, cviews.last()).drop_last().push(
                                insert_hotspot_spec(
                                    child_v,
                                    segsv,
                                    si + 1,
                                    *entry,
                                    max_revisions,
                                    max_authors,
                                ),
                            );
                            assert forall|k: int|
                                0 <= k < children@.len() implies raw_hotspot_views(children@)[k]
                                == target[k] by {
                                if k == children@.len() - 1 {
                                    assert(children@[k] == child2);
                                } else if k == f {
                                    assert(children@[k] == before[before.len() - 1]);
                                } else {
                                    assert(children@[k] == before[k]);
                                }
                            }
                            assert(raw_hotspot_views(children@) =~= target);
                        }
                        let r = RawHotspotTree::Tree { name, children };
                        proof {
                            assert(raw_hotspot_view(r) == insert_hotspot_spec(
                                nodev,
                                segsv,
                                si as int,
                                *entry,
                                max_revisions,
                                max_authors,
                            ));
                        }
                        r
                    } else {
                        let r = RawHotspotTree::Tree { name, children };
                        proof {
                            assert(raw_hotspot_view(r) == nodev);
                        }
                        r
                    }
                },
                None => {
                    if is_last {
                        let ghost before = children@;
                        children.push(
                            RawHotspotTree::Leaf {
                                name: part.clone(),
                                size: entry.num_code_lines,
                                num_revisions: entry.num_revisions,
                                max_revisions,
                                num_authors: entry.num_authors,
                                max_authors,
                            },
                        );
                        proof {
                            lemma_raw_hotspot_views(children@);
                            assert(raw_hotspot_view(children@[children@.len() - 1])
                                == hotspot_leaf_v(part@, *entry, max_revisions, max_authors));
                            let target = cviews.push(
                                hotspot_leaf_v(part@, *entry, max_revisions, max_authors),
                            );
                            assert forall|k: int|
                                0 <= k < children@.len() implies raw_hotspot_views(children@)[k]
                                == target[k] by {
                                if k < before.len() {
                                    assert(children@[k] == before[k]);
                                    assert(cviews[k] == raw_hotspot_view(before[k]));
                                }
                            }
                            assert(raw_hotspot_views(children@) =~= target);
                        }
                        let r = RawHotspotTree::Tree { name, children };
                        proof {
                            assert(raw_hotspot_view(r) == insert_hotspot_spec(
                                nodev,
                                segsv,
                                si as int,
                                *entry,
                                max_revisions,
                                max_authors,
                            ));
                        }
                        r
                    } else {
                        let fresh = RawHotspotTree::Tree {
                            name: part.clone(),
                            children: Vec::new(),
                        };
                        proof {
                            assert(raw_hotspot_views(fresh->Tree_children@)
                                =~= Seq::<RawHotspotTreeV>::empty());
                            assert(raw_hotspot_view(fresh) == (RawHotspotTreeV::Tree {
                                name: part@,
                                children: Seq::empty(),
                            }));
                        }
                        let filled = insert_hotspot(
                            fresh,
                            segs,
                            si + 1,
                            entry,
                            max_revisions,
                            max_authors,
                        );
                        let ghost filled_v = raw_hotspot_view(filled);
                        let ghost before = children@;
                        children.push(filled);
                        proof {
                            lemma_raw_hotspot_views(children@);
                            let target = cviews.push(filled_v);
                            assert forall|k: int|
                                0 <= k < children@.len() implies raw_hotspot_views(children@)[k]
                                == target[k] by {
                                if k < before.len() {
                                    assert(children@[k] == before[k]);
                                    assert(cviews[k] == raw_hotspot_view(before[k]));
                                }
                            }
                            assert(raw_hotspot_views(children@) =~= target);
                        }
                        let r = RawHotspotTree::Tree { name, children };
                        proof {
                            assert(raw_hotspot_view(r) == insert_hotspot_spec(
                                nodev,
                                segsv,
                                si as int,
                                *entry,
                                max_revisions,
                                max_authors,
                            ));
                        }
                        r
                    }
                },
            }
        },
        RawHotspotTree::Leaf { name, size, num_revisions, max_revisions, num_authors, max_authors } => {
            let r = RawHotspotTree::Leaf {
                name,
                size,
                num_revisions,
                max_revisions,
                num_authors,
                max_authors,
            };
            proof {
                assert(raw_hotspot_view(r) == nodev);
            }
            r
        },
    }
}

impl RawHotspotTree {
    /// The node's name.
    pub fn name_raw(&self) -> (r: &str)
        ensures
            r@ == raw_hotspot_name(*self),
    {
        match self {
            RawHotspotTree::Tree { name, .. } => name.as_str(),
            RawHotspotTree::Leaf { name, .. } => name.as_str(),
        }
    }

    /// Builds the unsorted tree of a hotspot report, as `hotspot_tree_model`
    /// describes: every entry is inserted, in order, at its name's path
    /// below a root node named `root`, and each leaf carries the largest
    /// revision and author counts of the whole report beside its own.
    pub fn from_vec(hotspots: &Vec<HotspotEntry>) -> (r: RawHotspotTree)
        ensures
            raw_hotspot_view(r) == hotspot_tree_model(hotspots@),
            r is Tree,
            raw_hotspot_name(r) == "root"@,
    {
        let n = hotspots.len();
        let mut max_revisions: u64 = 0;
        let mut max_authors: u64 = 0;
        let mut i: usize = 0;
        while i < n
            invariant
                n == hotspots@.len(),
                0 <= i <= n,
                max_revisions == max_revisions_upto(hotspots@, i as int),
                max_authors == max_authors_upto(hotspots@, i as int),
            decreases n - i,
        {
            if hotspots[i].num_revisions > max_revisions {
                max_revisions = hotspots[i].num_revisions;
            }
            if hotspots[i].num_authors > max_authors {
                max_authors = hotspots[i].num_authors;
            }
            i += 1;
        }
        let root_name = String::from_str("root");
        let mut root = RawHotspotTree::Tree { name: root_name, children: Vec::new() };
        proof {
            assert(raw_hotspot_views(root->Tree_children@) =~= Seq::<RawHotspotTreeV>::empty());
            assert(raw_hotspot_view(root) == (RawHotspotTreeV::Tree {
                name: "root"@,
                children: Seq::empty(),
            }));
        }
        let mut k: usize = 0;
        while k < n
            invariant
                n == hotspots@.len(),
                0 <= k <= n,
                root is Tree,
                raw_hotspot_name(root) == "root"@,
                max_revisions == max_revisions_of(hotspots@),
                max_authors == max_authors_of(hotspots@),
                hotspot_build_from(
                    hotspots@,
                    k as int,
                    raw_hotspot_view(root),
                    max_revisions,
                    max_authors,
                ) == hotspot_tree_model(hotspots@),
            decreases n - k,
        {
            let segs = split_segments(hotspots[k].name.as_str());
            proof {
                assert(segs.deep_view() == path_segments(hotspots@[k as int].name@));
            }
            root = insert_hotspot(root, &segs, 0, &hotspots[k], max_revisions, max_authors);
            k += 1;
        }
        root
    }
}

/// An ownership report arranged by path: one leaf per entity, holding its
/// size (the total net added lines, clamped at zero) and its main developer.
pub enum MainDeveloperTree {
    /// An internal node with its sorted children.
    Tree { name: String, children: Vec<MainDeveloperTree> },
    /// One entity of the report.
    Leaf { name: String, size: u64, main_developer: String },
}

/// The name of a node.
pub open spec fn main_dev_name(t: MainDeveloperTree) -> Seq<char> {
    match t {
        MainDeveloperTree::Tree { name, .. } => name@,
        MainDeveloperTree::Leaf { name, .. } => name@,
    }
}

/// Children are sorted by name at every level.
pub open spec fn main_dev_sorted(t: MainDeveloperTree) -> bool
    decreases t,
{
    match t {
        MainDeveloperTree::Tree { children, .. } => {
            &&& forall|i: int, j: int|
                0 <= i <= j < children@.len() ==> name_le(
                    main_dev_name(#[trigger] children@[i]),
                    main_dev_name(#[trigger] children@[j]),
                )
            &&& forall|i: int|
                0 <= i < children@.len() ==> main_dev_sorted(#[trigger] children@[i])
        },
        MainDeveloperTree::Leaf { .. } => true,
    }
}

impl SortOrder for MainDeveloperTree {
    open spec fn le_spec(a: &MainDeveloperTree, b: &MainDeveloperTree) -> bool {
        name_le(main_dev_name(*b), main_dev_name(*a))
    }

    fn le(a: &MainDeveloperTree, b: &MainDeveloperTree) -> (r: bool) {
        let an = a.name();
        let bn = b.name();
        str_le(bn, an)
    }

    proof fn le_total(a: &MainDeveloperTree, b: &MainDeveloperTree) {
        lemma_lex_le_total(encode_utf8(main_dev_name(*a)), encode_utf8(main_dev_name(*b)));
    }

    proof fn le_trans(a: &MainDeveloperTree, b: &MainDeveloperTree, c: &MainDeveloperTree) {
        lemma_lex_le_trans(
            encode_utf8(main_dev_name(*c)),
            encode_utf8(main_dev_name(*b)),
            encode_utf8(main_dev_name(*a)),
        );
    }
}

impl MainDeveloperTree {
    /// The node's name.
    pub fn name(&self) -> (r: &str)
        ensures
            r@ == main_dev_name(*self),
    {
        match self {
            MainDeveloperTree::Tree { name, .. } => name.as_str(),
            MainDeveloperTree::Leaf { name, .. } => name.as_str(),
        }
    }

    /// Arranges an ownership report as a tree, presenting
    /// `main_dev_tree_model` of the entries with the children of every node
    /// sorted by name — the names being pairwise distinct, strictly
    /// ascending. The root is an internal node named `root`.
    pub fn from_vec(main_developer_entries: &Vec<MainDeveloperEntry>) -> (r: MainDeveloperTree)
        ensures
            main_dev_converted(main_dev_tree_model(main_developer_entries@), r),
            main_dev_children_distinct(r),
            main_dev_sorted(r),
            r is Tree,
            main_dev_name(r) == "root"@,
    {
        proof {
            lemma_main_dev_model_distinct(main_developer_entries@);
        }
        MainDeveloperTree::from_raw(RawMainDeveloperTree::from_vec(main_developer_entries))
    }

    /// Sorts the children of every node of a built tree by name.
    #[verifier::rlimit(100)]
    #[verifier::spinoff_prover]
    pub fn from_raw(root: RawMainDeveloperTree) -> (r: MainDeveloperTree)
        ensures
            main_dev_sorted(r),
            main_dev_name(r) == raw_main_dev_name(root),
            r is Tree <==> root is Tree,
            main_dev_converted(raw_main_dev_view(root), r),
            mdv_children_distinct(raw_main_dev_view(root)) ==> main_dev_children_distinct(r),
        decreases root,
    {
        let ghost r0 = root;
        let ghost rootv = raw_main_dev_view(root);
        match root {
            RawMainDeveloperTree::Tree { name, children } => {
                let ghost children0 = children;
                let ghost cviews = raw_main_dev_views(children0@);
                proof {
                    assert(r0 is Tree && r0->Tree_children == children0);
                    assert(rootv == (RawMainDeveloperTreeV::Tree {
                        name: name@,
                        children: cviews,
                    }));
                    lemma_raw_main_dev_views(children0@);
                }
                let mut rest = children;
                let mut converted: Vec<MainDeveloperTree> = Vec::new();
                proof {
                    assert(children0@.skip(0) =~= children0@);
                }
                while rest.len() > 0
                    invariant
                        r0 == root,
                        r0 is Tree && r0->Tree_children == children0,
                        cviews == raw_main_dev_views(children0@),
                        cviews.len() == children0@.len(),
                        forall|k2: int|
                            0 <= k2 < children0@.len() ==> cviews[k2] == raw_main_dev_view(
                                #[trigger] children0@[k2],
                            ),
                        converted@.len() + rest@.len() == children0@.len(),
                        rest@ == children0@.skip(converted@.len() as int),
                        forall|i: int|
                            0 <= i < converted@.len() ==> main_dev_sorted(#[trigger] converted@[i]),
                        forall|i: int|
                            0 <= i < converted@.len() ==> main_dev_converted(
                                cviews[i],
                                #[trigger] converted@[i],
                            ),
                        forall|i: int|
                            0 <= i < converted@.len() ==> main_dev_name(#[trigger] converted@[i])
                                == mdv_name(cviews[i]),
                        forall|i: int|
                            0 <= i < converted@.len() ==> (mdv_children_distinct(cviews[i])
                                ==> main_dev_children_distinct(#[trigger] converted@[i])),
                    decreases rest@.len(),
                {
                    let ghost k = converted@.len() as int;
                    let child = rest.remove(0);
                    proof {
                        assert(child == children0@[k]);
                        assert(decreases_to!(r0 => r0->Tree_children));
                        assert(decreases_to!(children0 => children0@[k]));
                        assert(decreases_to!(r0 => children0@[k]));
                        assert(rest@ =~= children0@.skip(k + 1));
                    }
                    let done = MainDeveloperTree::from_raw(child);
                    proof {
                        lemma_raw_main_dev_view_name(child);
                    }
                    converted.push(done);
                }
                let sorted = sort_records(converted);
                proof {
                    lemma_main_dev_assemble(cviews, converted@, sorted@);
                }
                let r = MainDeveloperTree::Tree { name, children: sorted };
                proof {
                    reveal(main_dev_converted);
                    assert(main_dev_converted(rootv, r));
                    if mdv_children_distinct(rootv) {
                        assert(main_dev_children_distinct(r));
                    }
                }
                r
            },
            RawMainDeveloperTree::Leaf { name, size, main_developer } => {
                let r = MainDeveloperTree::Leaf { name, size, main_developer };
                proof {
                    reveal(main_dev_converted);
                    assert(main_dev_converted(rootv, r));
                }
                r
            },
        }
    }
}

/// An ownership tree as first built, before its children are sorted.
pub enum RawMainDeveloperTree {
    /// An internal node, children in insertion order.
    Tree { name: String, children: Vec<RawMainDeveloperTree> },
    /// One entity of the report.
    Leaf { name: String, size: u64, main_developer: String },
}

/// The name of a node of the unsorted tree.
pub open spec fn raw_main_dev_name(t: RawMainDeveloperTree) -> Seq<char> {
    match t {
        RawMainDeveloperTree::Tree { name, .. } => name@,
        RawMainDeveloperTree::Leaf { name, .. } => name@,
    }
}

/// Mathematical value of an unsorted ownership tree.
pub enum RawMainDeveloperTreeV {
    /// An internal node.
    Tree { name: Seq<char>, children: Seq<RawMainDeveloperTreeV> },
    /// One entity of the report.
    Leaf { name: Seq<char>, size: int, main_developer: Seq<char> },
}

/// The name of a node of the mathematical tree.
pub open spec fn mdv_name(t: RawMainDeveloperTreeV) -> Seq<char> {
    match t {
        RawMainDeveloperTreeV::Tree { name, .. } => name,
        RawMainDeveloperTreeV::Leaf { name, .. } => name,
    }
}

/// The mathematical value of an unsorted ownership tree.
pub open spec fn raw_main_dev_view(t: RawMainDeveloperTree) -> RawMainDeveloperTreeV
    decreases t,
    via raw_main_dev_view_decreases
{
    match t {
        RawMainDeveloperTree::Tree { name, children } => RawMainDeveloperTreeV::Tree {
            name: name@,
            children: raw_main_dev_views(children@),
        },
        RawMainDeveloperTree::Leaf { name, size, main_developer } => RawMainDeveloperTreeV::Leaf {
            name: name@,
            size: size as int,
            main_developer: main_developer@,
        },
    }
}

#[via_fn]
proof fn raw_main_dev_view_decreases(t: RawMainDeveloperTree) {
    match t {
        RawMainDeveloperTree::Tree { name, children } => {
            assert(decreases_to!(t => t->Tree_children));
            assert(decreases_to!(t->Tree_children => t->Tree_children@));
            assert(decreases_to!(t => children@));
        },
        RawMainDeveloperTree::Leaf { .. } => {
        },
    }
}

/// The mathematical values of a child list, in order.
pub open spec fn raw_main_dev_views(cs: Seq<RawMainDeveloperTree>) -> Seq<RawMainDeveloperTreeV>
    decreases cs,
{
    if cs.len() == 0 {
        Seq::empty()
    } else {
        seq![raw_main_dev_view(cs[0])] + raw_main_dev_views(cs.drop_first())
    }
}

/// The values of a child list are the children's values, in order.
pub proof fn lemma_raw_main_dev_views(cs: Seq<RawMainDeveloperTree>)
    ensures
        raw_main_dev_views(cs).len() == cs.len(),
        forall|i: int|
            0 <= i < cs.len() ==> raw_main_dev_views(cs)[i] == raw_main_dev_view(
                #[trigger] cs[i],
            ),
    decreases cs,
{
    if cs.len() > 0 {
        lemma_raw_main_dev_views(cs.drop_first());
        assert(forall|i: int|
            0 <= i < cs.drop_first().len() ==> #[trigger] cs.drop_first()[i] == cs[i + 1]);
        assert forall|i: int| 0 <= i < cs.len() implies raw_main_dev_views(cs)[i]
            == raw_main_dev_view(#[trigger] cs[i]) by {
            if i == 0 {
                assert(raw_main_dev_views(cs)[0] == raw_main_dev_view(cs[0]));
            } else {
                assert(raw_main_dev_views(cs)[i] == raw_main_dev_views(cs.drop_first())[i - 1]);
                assert(raw_main_dev_views(cs.drop_first())[i - 1] == raw_main_dev_view(
                    cs.drop_first()[i - 1],
                ));
                assert(cs.drop_first()[i - 1] == cs[i]);
            }
        }
    }
}

/// Index of the first child at or after `i` carrying this name, or `-1`.
pub open spec fn mdv_child_at(children: Seq<RawMainDeveloperTreeV>, name: Seq<char>, i: int) -> int
    decreases children.len() - i,
{
    if i < 0 || i >= children.len() {
        -1
    } else if mdv_name(children[i]) == name {
        i
    } else {
        mdv_child_at(children, name, i + 1)
    }
}

/// Index of the first child carrying this name, or `-1`.
pub open spec fn mdv_child_index(children: Seq<RawMainDeveloperTreeV>, name: Seq<char>) -> int {
    mdv_child_at(children, name, 0)
}

proof fn lemma_mdv_child_at_bounds(children: Seq<RawMainDeveloperTreeV>, name: Seq<char>, i: int)
    requires
        0 <= i <= children.len(),
    ensures
        mdv_child_at(children, name, i) == -1 || i <= mdv_child_at(children, name, i)
            < children.len(),
        mdv_child_at(children, name, i) >= 0 ==> mdv_name(
            children[mdv_child_at(children, name, i)],
        ) == name,
        mdv_child_at(children, name, i) == -1 ==> forall|k: int|
            i <= k < children.len() ==> mdv_name(#[trigger] children[k]) != name,
    decreases children.len() - i,
{
    if i < children.len() && mdv_name(children[i]) != name {
        lemma_mdv_child_at_bounds(children, name, i + 1);
    }
}

/// The leaf an entry contributes: its size is the entity's total net line
/// growth, clamped at zero.
pub open spec fn main_dev_leaf_v(seg: Seq<char>, e: MainDeveloperEntry) -> RawMainDeveloperTreeV {
    RawMainDeveloperTreeV::Leaf {
        name: seg,
        size: if e.total_net_added_lines >= 0 {
            e.total_net_added_lines as int
        } else {
            0
        },
        main_developer: e.main_developer@,
    }
}

/// One entry's insertion below a node, from segment `si` on, exactly as
/// `insert_hotspot_spec` inserts hotspots: first claim wins, segments below
/// an existing leaf are ignored, a reused child moves to the end.
pub open spec fn insert_main_dev_spec(
    node: RawMainDeveloperTreeV,
    segs: Seq<Seq<char>>,
    si: int,
    e: MainDeveloperEntry,
) -> RawMainDeveloperTreeV
    decreases segs.len() - si,
{
    if si < 0 || si >= segs.len() {
        node
    } else {
        match node {
            RawMainDeveloperTreeV::Tree { name, children } => {
                let part = segs[si];
                let is_last = si == segs.len() - 1;
                let f = mdv_child_index(children, part);
                if f >= 0 {
                    if !is_last {
                        let child2 = insert_main_dev_spec(children[f], segs, si + 1, e);
                        RawMainDeveloperTreeV::Tree {
                            name,
                            children: children.update(f, children.last()).drop_last().push(child2),
                        }
                    } else {
                        RawMainDeveloperTreeV::Tree { name, children }
                    }
                } else {
                    if is_last {
                        RawMainDeveloperTreeV::Tree {
                            name,
                            children: children.push(main_dev_leaf_v(part, e)),
                        }
                    } else {
                        let filled = insert_main_dev_spec(
                            RawMainDeveloperTreeV::Tree { name: part, children: Seq::empty() },
                            segs,
                            si + 1,
                            e,
                        );
                        RawMainDeveloperTreeV::Tree { name, children: children.push(filled) }
                    }
                }
            },
            RawMainDeveloperTreeV::Leaf { .. } => node,
        }
    }
}

/// The unsorted ownership tree of the entries from index `k` on, inserted
/// in order below `acc`.
pub open spec fn main_dev_build_from(
    entries: Seq<MainDeveloperEntry>,
    k: int,
    acc: RawMainDeveloperTreeV,
) -> RawMainDeveloperTreeV
    decreases entries.len() - k,
{
    if k < 0 || k >= entries.len() {
        acc
    } else {
        main_dev_build_from(
            entries,
            k + 1,
            insert_main_dev_spec(acc, path_segments(entries[k].name@), 0, entries[k]),
        )
    }
}

/// The unsorted ownership tree of a whole report: every entry inserted, in
/// order, at its name's path below a root named `root`.
pub open spec fn main_dev_tree_model(entries: Seq<MainDeveloperEntry>) -> RawMainDeveloperTreeV {
    main_dev_build_from(
        entries,
        0,
        RawMainDeveloperTreeV::Tree { name: "root"@, children: Seq::empty() },
    )
}

/// Children carry pairwise distinct names, at every node.
pub open spec fn mdv_children_distinct(t: RawMainDeveloperTreeV) -> bool
    decreases t,
{
    match t {
        RawMainDeveloperTreeV::Tree { children, .. } => {
            &&& forall|i: int, j: int|
                0 <= i < children.len() && 0 <= j < children.len() && i != j ==> mdv_name(
                    #[trigger] children[i],
                ) != mdv_name(#[trigger] children[j])
            &&& forall|i: int|
                0 <= i < children.len() ==> mdv_children_distinct(#[trigger] children[i])
        },
        RawMainDeveloperTreeV::Leaf { .. } => true,
    }
}

/// Insertion keeps a node's name and variant, and never duplicates a child
/// name.
pub proof fn lemma_insert_main_dev_spec_wf(
    node: RawMainDeveloperTreeV,
    segs: Seq<Seq<char>>,
    si: int,
    e: MainDeveloperEntry,
)
    ensures
        mdv_name(insert_main_dev_spec(node, segs, si, e)) == mdv_name(node),
        insert_main_dev_spec(node, segs, si, e) is Tree <==> node is Tree,
        mdv_children_distinct(node) ==> mdv_children_distinct(
            insert_main_dev_spec(node, segs, si, e),
        ),
    decreases segs.len() - si,
{
    let result = insert_main_dev_spec(node, segs, si, e);
    if !(si < 0 || si >= segs.len()) && node is Tree {
        let children = node->Tree_children;
        let part = segs[si];
        let is_last = si == segs.len() - 1;
        let f = mdv_child_index(children, part);
        lemma_mdv_child_at_bounds(children, part, 0);
        if f >= 0 && !is_last {
            lemma_insert_main_dev_spec_wf(children[f], segs, si + 1, e);
            let child2 = insert_main_dev_spec(children[f], segs, si + 1, e);
            let cs2 = children.update(f, children.last()).drop_last().push(child2);
            assert(result->Tree_children == cs2);
            if mdv_children_distinct(node) {
                let n = children.len() as int;
                assert(mdv_name(child2) == mdv_name(children[f]));
                assert forall|i: int, j: int|
                    0 <= i < cs2.len() && 0 <= j < cs2.len() && i != j implies mdv_name(
                    #[trigger] cs2[i],
                ) != mdv_name(#[trigger] cs2[j]) by {
                    let oi: int = if i == n - 1 {
                        f
                    } else if i == f {
                        n - 1
                    } else {
                        i
                    };
                    let oj: int = if j == n - 1 {
                        f
                    } else if j == f {
                        n - 1
                    } else {
                        j
                    };
                    assert(mdv_name(cs2[i]) == mdv_name(children[oi]));
                    assert(mdv_name(cs2[j]) == mdv_name(children[oj]));
                    assert(oi != oj);
                    assert(mdv_name(children[oi]) != mdv_name(children[oj]));
                }
                assert forall|i: int| 0 <= i < cs2.len() implies mdv_children_distinct(
                    #[trigger] cs2[i],
                ) by {
                    if i == cs2.len() - 1 {
                        assert(mdv_children_distinct(children[f]));
                        assert(mdv_children_distinct(child2));
                    } else if i == f {
                        assert(cs2[i] == children[n - 1]);
                        assert(mdv_children_distinct(children[n - 1]));
                    } else {
                        assert(cs2[i] == children[i]);
                        assert(mdv_children_distinct(children[i]));
                    }
                }
                assert(mdv_children_distinct(result));
            }
        } else if f >= 0 && is_last {
            assert(result == node);
        } else if f < 0 && is_last {
            let cs2 = children.push(main_dev_leaf_v(part, e));
            assert(result->Tree_children == cs2);
            if mdv_children_distinct(node) {
                assert forall|i: int, j: int|
                    0 <= i < cs2.len() && 0 <= j < cs2.len() && i != j implies mdv_name(
                    #[trigger] cs2[i],
                ) != mdv_name(#[trigger] cs2[j]) by {
                    if i < children.len() && j < children.len() {
                        assert(mdv_name(children[i]) != mdv_name(children[j]));
                    } else {
                        let older: int = if i < children.len() {
                            i
                        } else {
                            j
                        };
                        assert(mdv_name(children[older]) != part);
                    }
                }
                assert forall|i: int| 0 <= i < cs2.len() implies mdv_children_distinct(
                    #[trigger] cs2[i],
                ) by {
                    if i < children.len() {
                        assert(cs2[i] == children[i]);
                        assert(mdv_children_distinct(children[i]));
                    }
                }
                assert(mdv_children_distinct(result));
            }
        } else {
            let fresh = RawMainDeveloperTreeV::Tree { name: part, children: Seq::empty() };
            lemma_insert_main_dev_spec_wf(fresh, segs, si + 1, e);
            let filled = insert_main_dev_spec(fresh, segs, si + 1, e);
            let cs2 = children.push(filled);
            assert(result->Tree_children == cs2);
            if mdv_children_distinct(node) {
                assert(mdv_children_distinct(fresh));
                assert(mdv_children_distinct(filled));
                assert(mdv_name(filled) == part);
                assert forall|i: int, j: int|
                    0 <= i < cs2.len() && 0 <= j < cs2.len() && i != j implies mdv_name(
                    #[trigger] cs2[i],
                ) != mdv_name(#[trigger] cs2[j]) by {
                    if i < children.len() && j < children.len() {
                        assert(mdv_name(children[i]) != mdv_name(children[j]));
                    } else {
                        let older: int = if i < children.len() {
                            i
                        } else {
                            j
                        };
                        assert(mdv_name(children[older]) != part);
                    }
                }
                assert forall|i: int| 0 <= i < cs2.len() implies mdv_children_distinct(
                    #[trigger] cs2[i],
                ) by {
                    if i < children.len() {
                        assert(cs2[i] == children[i]);
                        assert(mdv_children_distinct(children[i]));
                    }
                }
                assert(mdv_children_distinct(result));
            }
        }
    }
}

/// The whole built tree never carries two children with one name under one
/// node: the build map is keyed by name.
pub proof fn lemma_main_dev_model_distinct(entries: Seq<MainDeveloperEntry>)
    ensures
        mdv_children_distinct(main_dev_tree_model(entries)),
        main_dev_tree_model(entries) is Tree,
        mdv_name(main_dev_tree_model(entries)) == "root"@,
{
    let init = RawMainDeveloperTreeV::Tree { name: "root"@, children: Seq::empty() };
    lemma_main_dev_build_distinct(entries, 0, init);
}

proof fn lemma_main_dev_build_distinct(
    entries: Seq<MainDeveloperEntry>,
    k: int,
    acc: RawMainDeveloperTreeV,
)
    requires
        mdv_children_distinct(acc),
    ensures
        mdv_children_distinct(main_dev_build_from(entries, k, acc)),
        mdv_name(main_dev_build_from(entries, k, acc)) == mdv_name(acc),
        main_dev_build_from(entries, k, acc) is Tree <==> acc is Tree,
    decreases entries.len() - k,
{
    if !(k < 0 || k >= entries.len()) {
        lemma_insert_main_dev_spec_wf(acc, path_segments(entries[k].name@), 0, entries[k]);
        lemma_main_dev_build_distinct(
            entries,
            k + 1,
            insert_main_dev_spec(acc, path_segments(entries[k].name@), 0, entries[k]),
        );
    }
}

/// The sorted tree `t` presents the built tree `raw`: same name, same
/// variant, equal leaf payloads, and the same children, recursively.
#[verifier::opaque]
pub open spec fn main_dev_converted(raw: RawMainDeveloperTreeV, t: MainDeveloperTree) -> bool
    decreases raw, 0int,
{
    match raw {
        RawMainDeveloperTreeV::Tree { name, children } => {
            &&& t is Tree
            &&& main_dev_name(t) == name
            &&& t->Tree_children@.len() == children.len()
            &&& forall|i: int|
                0 <= i < t->Tree_children@.len() ==> main_dev_presented(
                    children,
                    #[trigger] t->Tree_children@[i],
                )
            &&& forall|j: int|
                0 <= j < children.len() ==> main_dev_included(
                    t->Tree_children@,
                    #[trigger] children[j],
                )
        },
        RawMainDeveloperTreeV::Leaf { name, size, main_developer } => {
            &&& t is Leaf
            &&& main_dev_name(t) == name
            &&& t->Leaf_size == size
            &&& t->Leaf_main_developer@ == main_developer
        },
    }
}

/// The node `t` presents one of the built children.
pub open spec fn main_dev_presented(cviews: Seq<RawMainDeveloperTreeV>, t: MainDeveloperTree) -> bool
    decreases cviews, 0int,
{
    exists|j: int| 0 <= j < cviews.len() && main_dev_converted(#[trigger] cviews[j], t)
}

/// The built node `raw` is presented by one of the children.
pub open spec fn main_dev_included(
    children: Seq<MainDeveloperTree>,
    raw: RawMainDeveloperTreeV,
) -> bool
    decreases raw, 1int,
{
    exists|i: int| 0 <= i < children.len() && main_dev_converted(raw, #[trigger] children[i])
}

/// Children of the sorted tree carry pairwise distinct names, at every node:
/// with the sorted order this makes child names strictly ascending.
pub open spec fn main_dev_children_distinct(t: MainDeveloperTree) -> bool
    decreases t,
{
    match t {
        MainDeveloperTree::Tree { children, .. } => {
            &&& forall|i: int, j: int|
                0 <= i < children@.len() && 0 <= j < children@.len() && i != j ==> main_dev_name(
                    #[trigger] children@[i],
                ) != main_dev_name(#[trigger] children@[j])
            &&& forall|i: int|
                0 <= i < children@.len() ==> main_dev_children_distinct(#[trigger] children@[i])
        },
        MainDeveloperTree::Leaf { .. } => true,
    }
}

/// Sorting a list of converted children preserves what each child presents,
/// exactly as `lemma_hotspot_assemble` shows for hotspot trees.
#[verifier::rlimit(100)]
#[verifier::spinoff_prover]
proof fn lemma_main_dev_assemble(
    cviews: Seq<RawMainDeveloperTreeV>,
    pre: Seq<MainDeveloperTree>,
    post: Seq<MainDeveloperTree>,
)
    requires
        pre.to_multiset() == post.to_multiset(),
        pre.len() == cviews.len(),
        post.len() == pre.len(),
        forall|i: int| 0 <= i < pre.len() ==> main_dev_converted(cviews[i], #[trigger] pre[i]),
        forall|i: int|
            0 <= i < pre.len() ==> main_dev_name(#[trigger] pre[i]) == mdv_name(cviews[i]),
        forall|i: int| 0 <= i < pre.len() ==> main_dev_sorted(#[trigger] pre[i]),
        forall|i: int|
            0 <= i < pre.len() ==> (mdv_children_distinct(cviews[i])
                ==> main_dev_children_distinct(#[trigger] pre[i])),
    ensures
        forall|i: int| 0 <= i < post.len() ==> main_dev_sorted(#[trigger] post[i]),
        forall|i: int| 0 <= i < post.len() ==> main_dev_presented(cviews, #[trigger] post[i]),
        forall|j: int| 0 <= j < cviews.len() ==> main_dev_included(post, #[trigger] cviews[j]),
        ((forall|i: int, j: int|
            0 <= i < cviews.len() && 0 <= j < cviews.len() && i != j ==> mdv_name(
                #[trigger] cviews[i],
            ) != mdv_name(#[trigger] cviews[j])) && (forall|i: int|
            0 <= i < cviews.len() ==> mdv_children_distinct(#[trigger] cviews[i]))) ==> ((forall|
            i: int,
            j: int,
        |
            0 <= i < post.len() && 0 <= j < post.len() && i != j ==> main_dev_name(
                #[trigger] post[i],
            ) != main_dev_name(#[trigger] post[j])) && (forall|i: int|
            0 <= i < post.len() ==> main_dev_children_distinct(#[trigger] post[i]))),
{
    crate::sorting::lemma_multiset_perm_facts(pre, post);
    assert forall|i: int| 0 <= i < post.len() implies main_dev_sorted(#[trigger] post[i]) by {
        assert(pre.contains(post[i]));
        let k2 = choose|k2: int| 0 <= k2 < pre.len() && pre[k2] == post[i];
        assert(main_dev_sorted(pre[k2]));
    }
    assert forall|i: int| 0 <= i < post.len() implies main_dev_presented(
        cviews,
        #[trigger] post[i],
    ) by {
        assert(pre.contains(post[i]));
        let k2 = choose|k2: int| 0 <= k2 < pre.len() && pre[k2] == post[i];
        assert(0 <= k2 < cviews.len() && main_dev_converted(cviews[k2], post[i]));
    }
    assert forall|j: int| 0 <= j < cviews.len() implies main_dev_included(
        post,
        #[trigger] cviews[j],
    ) by {
        assert(post.contains(pre[j]));
        let i = choose|i: int| 0 <= i < post.len() && post[i] == pre[j];
        assert(0 <= i < post.len() && main_dev_converted(cviews[j], post[i]));
    }
    if (forall|i: int, j: int|
        0 <= i < cviews.len() && 0 <= j < cviews.len() && i != j ==> mdv_name(#[trigger] cviews[i])
            != mdv_name(#[trigger] cviews[j])) && (forall|i: int|
        0 <= i < cviews.len() ==> mdv_children_distinct(#[trigger] cviews[i])) {
        assert forall|i: int, j: int|
            0 <= i < pre.len() && 0 <= j < pre.len() && i != j implies main_dev_name(
            #[trigger] pre[i],
        ) != main_dev_name(#[trigger] pre[j]) by {
            assert(main_dev_name(pre[i]) == mdv_name(cviews[i]));
            assert(main_dev_name(pre[j]) == mdv_name(cviews[j]));
        }
        crate::sorting::lemma_key_distinct_transfer(
            pre,
            post,
            |t: MainDeveloperTree| main_dev_name(t),
        );
        assert forall|i: int, j: int|
            0 <= i < post.len() && 0 <= j < post.len() && i != j implies main_dev_name(
            #[trigger] post[i],
        ) != main_dev_name(#[trigger] post[j]) by {
            let keyf = |t: MainDeveloperTree| main_dev_name(t);
            assert(keyf(post[i]) != keyf(post[j]));
        }
        assert forall|i: int| 0 <= i < post.len() implies main_dev_children_distinct(
            #[trigger] post[i],
        ) by {
            assert(pre.contains(post[i]));
            let k2 = choose|k2: int| 0 <= k2 < pre.len() && pre[k2] == post[i];
            assert(mdv_children_distinct(cviews[k2]));
        }
    }
}

/// A node's mathematical name is its name.
proof fn lemma_raw_main_dev_view_name(t: RawMainDeveloperTree)
    ensures
        mdv_name(raw_main_dev_view(t)) == raw_main_dev_name(t),
        raw_main_dev_view(t) is Tree <==> t is Tree,
{
    match t {
        RawMainDeveloperTree::Tree { .. } => {
        },
        RawMainDeveloperTree::Leaf { .. } => {
        },
    }
}

/// Inserts one entry's payload at its path below the node, as
/// `insert_main_dev_spec` describes: first claim wins, segments below an
/// existing leaf are ignored.
fn insert_main_dev(
    node: RawMainDeveloperTree,
    segs: &Vec<String>,
    si: usize,
    entry: &MainDeveloperEntry,
) -> (r: RawMainDeveloperTree)
    requires
        si <= segs@.len(),
    ensures
        raw_main_dev_view(r) == insert_main_dev_spec(
            raw_main_dev_view(node),
            segs.deep_view(),
            si as int,
            *entry,
        ),
        raw_main_dev_name(r) == raw_main_dev_name(node),
        r is Tree <==> node is Tree,
    decreases segs@.len() - si,
{
    let ghost nodev = raw_main_dev_view(node);
    let ghost segsv = segs.deep_view();
    if si >= segs.len() {
        return node;
    }
    match node {
        RawMainDeveloperTree::Tree { name, mut children } => {
            proof {
                assert(nodev == (RawMainDeveloperTreeV::Tree {
                    name: name@,
                    children: raw_main_dev_views(children@),
                }));
                lemma_raw_main_dev_views(children@);
            }
            let ghost cviews = raw_main_dev_views(children@);
            let part = &segs[si];
            proof {
                assert(segsv[si as int] == segs@[si as int]@);
            }
            let is_last = si == segs.len() - 1;
            let n = children.len();
            let mut found: Option<usize> = None;
            proof {
                assert(mdv_child_index(cviews, part@) == mdv_child_at(cviews, part@, 0));
            }
            let mut i: usize = 0;
            while i < n
                invariant
                    n == children@.len(),
                    cviews == raw_main_dev_views(children@),
                    cviews.len() == n,
                    forall|k: int|
                        0 <= k < n ==> cviews[k] == raw_main_dev_view(#[trigger] children@[k]),
                    0 <= i <= n,
                    0 <= si < segsv.len(),
                    part@ == segsv[si as int],
                    match found {
                        Some(f) => f < n && mdv_child_index(cviews, part@) == f,
                        None => mdv_child_index(cviews, part@) == mdv_child_at(
                            cviews,
                            part@,
                            i as int,
                        ),
                    },
                decreases n - i,
            {
                let child_name = children[i].name_raw();
                proof {
                    lemma_raw_main_dev_view_name(children@[i as int]);
                    assert(mdv_name(cviews[i as int]) == child_name@);
                }
                if found.is_none() && crate::text::str_eq(child_name, part.as_str()) {
                    found = Some(i);
                }
                i += 1;
            }
            proof {
                if found is None {
                    assert(mdv_child_index(cviews, part@) == -1);
                }
            }
            match found {
                Some(f) => {
                    if !is_last {
                        let ghost before = children@;
                        let child = children.swap_remove(f);
                        let ghost child_v = cviews[f as int];
                        proof {
                            assert(child == before[f as int]);
                            assert(raw_main_dev_view(child) == child_v);
                        }
                        let child2 = insert_main_dev(child, segs, si + 1, entry);
                        children.push(child2);
                        proof {
                            lemma_raw_main_dev_views(children@);
                            let target = cviews.update(f as int, cviews.last()).drop_last().push(
                                insert_main_dev_spec(child_v, segsv, si + 1, *entry),
                            );
                            assert forall|k: int|
                                0 <= k < children@.len() implies raw_main_dev_views(children@)[k]
                                == target[k] by {
                                if k == children@.len() - 1 {
                                    assert(children@[k] == child2);
                                } else if k == f {
                                    assert(children@[k] == before[before.len() - 1]);
                                } else {
                                    assert(children@[k] == before[k]);
                                }
                            }
                            assert(raw_main_dev_views(children@) =~= target);
                        }
                        let r = RawMainDeveloperTree::Tree { name, children };
                        proof {
                            assert(raw_main_dev_view(r) == insert_main_dev_spec(
                                nodev,
                                segsv,
                                si as int,
                                *entry,
                            ));
                        }
                        r
                    } else {
                        let r = RawMainDeveloperTree::Tree { name, children };
                        proof {
                            assert(raw_main_dev_view(r) == nodev);
                        }
                        r
                    }
                },
                None => {
                    if is_last {
                        let size: u64 = if entry.total_net_added_lines >= 0 {
                            entry.total_net_added_lines as u64
                        } else {
                            0
                        };
                        let ghost before = children@;
                        children.push(
                            RawMainDeveloperTree::Leaf {
                                name: part.clone(),
                                size,
                                main_developer: entry.main_developer.clone(),
                            },
                        );
                        proof {
                            lemma_raw_main_dev_views(children@);
                            assert(raw_main_dev_view(children@[children@.len() - 1])
                                == main_dev_leaf_v(part@, *entry));
                            let target = cviews.push(main_dev_leaf_v(part@, *entry));
                            assert forall|k: int|
                                0 <= k < children@.len() implies raw_main_dev_views(children@)[k]
                                == target[k] by {
                                if k < before.len() {
                                    assert(children@[k] == before[k]);
                                    assert(cviews[k] == raw_main_dev_view(before[k]));
                                }
                            }
                            assert(raw_main_dev_views(children@) =~= target);
                        }
                        let r = RawMainDeveloperTree::Tree { name, children };
                        proof {
                            assert(raw_main_dev_view(r) == insert_main_dev_spec(
                                nodev,
                                segsv,
                                si as int,
                                *entry,
                            ));
                        }
                        r
                    } else {
                        let fresh = RawMainDeveloperTree::Tree {
                            name: part.clone(),
                            children: Vec::new(),
                        };
                        proof {
                            assert(raw_main_dev_views(fresh->Tree_children@)
                                =~= Seq::<RawMainDeveloperTreeV>::empty());
                            assert(raw_main_dev_view(fresh) == (RawMainDeveloperTreeV::Tree {
                                name: part@,
                                children: Seq::empty(),
                            }));
                        }
                        let filled = insert_main_dev(fresh, segs, si + 1, entry);
                        let ghost filled_v = raw_main_dev_view(filled);
                        let ghost before = children@;
                        children.push(filled);
                        proof {
                            lemma_raw_main_dev_views(children@);
                            let target = cviews.push(filled_v);
                            assert forall|k: int|
                                0 <= k < children@.len() implies raw_main_dev_views(children@)[k]
                                == target[k] by {
                                if k < before.len() {
                                    assert(children@[k] == before[k]);
                                    assert(cviews[k] == raw_main_dev_view(before[k]));
                                }
                            }
                            assert(raw_main_dev_views(children@) =~= target);
                        }
                        let r = RawMainDeveloperTree::Tree { name, children };
                        proof {
                            assert(raw_main_dev_view(r) == insert_main_dev_spec(
                                nodev,
                                segsv,
                                si as int,
                                *entry,
                            ));
                        }
                        r
                    }
                },
            }
        },
        RawMainDeveloperTree::Leaf { name, size, main_developer } => {
            let r = RawMainDeveloperTree::Leaf { name, size, main_developer };
            proof {
                assert(raw_main_dev_view(r) == nodev);
            }
            r
        },
    }
}

impl RawMainDeveloperTree {
    /// The node's name.
    fn name_raw(&self) -> (r: &str)
        ensures
            r@ == raw_main_dev_name(*self),
    {
        match self {
            RawMainDeveloperTree::Tree { name, .. } => name.as_str(),
            RawMainDeveloperTree::Leaf { name, .. } => name.as_str(),
        }
    }

    /// Builds the unsorted tree of an ownership report, as
    /// `main_dev_tree_model` describes: every entry inserted, in order, at
    /// its name's path below a root node named `root`.
    pub fn from_vec(main_developer_entries: &Vec<MainDeveloperEntry>) -> (r: RawMainDeveloperTree)
        ensures
            raw_main_dev_view(r) == main_dev_tree_model(main_developer_entries@),
            r is Tree,
            raw_main_dev_name(r) == "root"@,
    {
        let n = main_developer_entries.len();
        let root_name = String::from_str("root");
        let mut root = RawMainDeveloperTree::Tree { name: root_name, children: Vec::new() };
        proof {
            assert(raw_main_dev_views(root->Tree_children@)
                =~= Seq::<RawMainDeveloperTreeV>::empty());
            assert(raw_main_dev_view(root) == (RawMainDeveloperTreeV::Tree {
                name: "root"@,
                children: Seq::empty(),
            }));
        }
        let mut k: usize = 0;
        while k < n
            invariant
                n == main_developer_entries@.len(),
                0 <= k <= n,
                root is Tree,
                raw_main_dev_name(root) == "root"@,
                main_dev_build_from(
                    main_developer_entries@,
                    k as int,
                    raw_main_dev_view(root),
                ) == main_dev_tree_model(main_developer_entries@),
            decreases n - k,
        {
            let segs = split_segments(main_developer_entries[k].name.as_str());
            proof {
                assert(segs.deep_view() == path_segments(
                    main_developer_entries@[k as int].name@,
                ));
            }
            root = insert_main_dev(root, &segs, 0, &main_developer_entries[k]);
            k += 1;
        }
        root
    }
}

/// One coupling partner of a leaf: the partner's name, the number of
/// revisions that changed both sides, and the average of the two sides' own
/// revision totals. The coupling ratio is the quotient of the two counts;
/// the division is left to the caller.
pub struct Coupling {
    pub coupled: String,
    pub coupled_revisions: u64,
    pub average_revisions: u64,
}

/// Whether a coupling passes the thresholds: at least `min_revisions`
/// coupled revisions, and a coupling ratio of at least
/// `ratio_num / ratio_den`, compared exactly as
/// `coupled_revisions * ratio_den >= ratio_num * average_revisions`.
pub open spec fn coupling_keep(c: Coupling, min_revisions: int, ratio_num: int, ratio_den: int) -> bool {
    &&& c.coupled_revisions >= min_revisions
    &&& (c.coupled_revisions as int) * ratio_den >= ratio_num * (c.average_revisions as int)
}

fn coupling_passes(c: &Coupling, min_revisions: u64, ratio_num: u64, ratio_den: u64) -> (r: bool)
    ensures
        r == coupling_keep(*c, min_revisions as int, ratio_num as int, ratio_den as int),
{
    proof {
        assert((c.coupled_revisions as int) * (ratio_den as int) <= (u64::MAX as int) * (
        u64::MAX as int)) by (nonlinear_arith)
            requires
                c.coupled_revisions <= u64::MAX,
                ratio_den <= u64::MAX,
        ;
        assert((ratio_num as int) * (c.average_revisions as int) <= (u64::MAX as int) * (
        u64::MAX as int)) by (nonlinear_arith)
            requires
                ratio_num <= u64::MAX,
                c.average_revisions <= u64::MAX,
        ;
    }
    c.coupled_revisions >= min_revisions && (c.coupled_revisions as u128) * (ratio_den as u128)
        >= (ratio_num as u128) * (c.average_revisions as u128)
}

/// A change-coupling report arranged by path (or flat, for modules): one
/// leaf per entity, holding the partners that survived the thresholds.
pub enum ChangeCouplingTree {
    /// An internal node with its sorted children.
    Tree { name: String, children: Vec<ChangeCouplingTree> },
    /// One entity with its surviving coupling partners.
    Leaf { name: String, couplings: Vec<Coupling> },
}

/// The name of a node.
pub open spec fn coupling_name(t: ChangeCouplingTree) -> Seq<char> {
    match t {
        ChangeCouplingTree::Tree { name, .. } => name@,
        ChangeCouplingTree::Leaf { name, .. } => name@,
    }
}

/// Children are sorted by name at every level.
pub open spec fn coupling_sorted(t: ChangeCouplingTree) -> bool
    decreases t,
{
    match t {
        ChangeCouplingTree::Tree { children, .. } => {
            &&& forall|i: int, j: int|
                0 <= i <= j < children@.len() ==> name_le(
                    coupling_name(#[trigger] children@[i]),
                    coupling_name(#[trigger] children@[j]),
                )
            &&& forall|i: int|
                0 <= i < children@.len() ==> coupling_sorted(#[trigger] children@[i])
        },
        ChangeCouplingTree::Leaf { .. } => true,
    }
}

/// A fully pruned subtree: every leaf keeps at least one partner and every
/// partner passes the thresholds, and every internal node keeps at least one
/// child.
pub open spec fn coupling_pruned(
    t: ChangeCouplingTree,
    min_revisions: int,
    ratio_num: int,
    ratio_den: int,
) -> bool
    decreases t,
{
    match t {
        ChangeCouplingTree::Tree { children, .. } => {
            &&& children@.len() > 0
            &&& forall|i: int|
                0 <= i < children@.len() ==> coupling_pruned(
                    #[trigger] children@[i],
                    min_revisions,
                    ratio_num,
                    ratio_den,
                )
        },
        ChangeCouplingTree::Leaf { couplings, .. } => {
            &&& couplings@.len() > 0
            &&& forall|i: int|
                0 <= i < couplings@.len() ==> coupling_keep(
                    #[trigger] couplings@[i],
                    min_revisions,
                    ratio_num,
                    ratio_den,
                )
        },
    }
}

impl SortOrder for ChangeCouplingTree {
    open spec fn le_spec(a: &ChangeCouplingTree, b: &ChangeCouplingTree) -> bool {
        name_le(coupling_name(*b), coupling_name(*a))
    }

    fn le(a: &ChangeCouplingTree, b: &ChangeCouplingTree) -> (r: bool) {
        let an = a.name();
        let bn = b.name();
        str_le(bn, an)
    }

    proof fn le_total(a: &ChangeCouplingTree, b: &ChangeCouplingTree) {
        lemma_lex_le_total(encode_utf8(coupling_name(*a)), encode_utf8(coupling_name(*b)));
    }

    proof fn le_trans(a: &ChangeCouplingTree, b: &ChangeCouplingTree, c: &ChangeCouplingTree) {
        lemma_lex_le_trans(
            encode_utf8(coupling_name(*c)),
            encode_utf8(coupling_name(*b)),
            encode_utf8(coupling_name(*a)),
        );
    }
}

impl ChangeCouplingTree {
    /// The node's name.
    pub fn name(&self) -> (r: &str)
        ensures
            r@ == coupling_name(*self),
    {
        match self {
            ChangeCouplingTree::Tree { name, .. } => name.as_str(),
            ChangeCouplingTree::Leaf { name, .. } => name.as_str(),
        }
    }

    /// A leaf that kept no coupling partner.
    pub fn is_empty_leaf(&self) -> (r: bool)
        ensures
            r == (self is Leaf && self->Leaf_couplings@.len() == 0),
    {
        match self {
            ChangeCouplingTree::Tree { .. } => false,
            ChangeCouplingTree::Leaf { couplings, .. } => couplings.len() == 0,
        }
    }

    /// Arranges a change-coupling report as a tree, presenting the filtered
    /// `coupling_tree_model` of the entries. With `split_at_path_separator`
    /// every entity name is split into path segments (used for files);
    /// without, each entity is one leaf under the root (used for modules).
    /// Each leaf keeps exactly its partners passing the thresholds, in their
    /// original order; leaves left without partners as well as internal
    /// nodes left without children are removed, bottom up; only the root
    /// remains when nothing survives. Children are sorted by name at every
    /// level, their names pairwise distinct, strictly ascending.
    pub fn from_vec(
        change_couplings: &Vec<ChangeCouplingEntry>,
        split_at_path_separator: bool,
        min_coupled_revisions: u64,
        min_ratio_num: u64,
        min_ratio_den: u64,
    ) -> (r: ChangeCouplingTree)
        requires
            forall|i: int|
                0 <= i < change_couplings@.len() ==> (#[trigger] change_couplings@[i]).num_left_revisions
                    + change_couplings@[i].num_right_revisions <= u64::MAX,
        ensures
            coupling_cnv(
                coupling_tree_model(change_couplings@, split_at_path_separator),
                r,
                min_coupled_revisions as int,
                min_ratio_num as int,
                min_ratio_den as int,
            ),
            coupling_children_distinct(r),
            coupling_sorted(r),
            r is Tree,
            coupling_name(r) == Seq::<char>::empty(),
            forall|i: int|
                0 <= i < r->Tree_children@.len() ==> coupling_pruned(
                    #[trigger] r->Tree_children@[i],
                    min_coupled_revisions as int,
                    min_ratio_num as int,
                    min_ratio_den as int,
                ),
    {
        proof {
            lemma_coupling_model_distinct(change_couplings@, split_at_path_separator);
        }
        ChangeCouplingTree::from_raw(
            RawChangeCouplingTree::from_vec(change_couplings, split_at_path_separator),
            min_coupled_revisions,
            min_ratio_num,
            min_ratio_den,
        )
    }

    /// Filters a built tree by the thresholds and sorts the children of
    /// every node by name: partners below the thresholds leave their leaf,
    /// and a child that ends up an empty leaf or an empty internal node is
    /// dropped.
    #[verifier::rlimit(100)]
    #[verifier::spinoff_prover]
    pub fn from_raw(
        root: RawChangeCouplingTree,
        min_coupled_revisions: u64,
        min_ratio_num: u64,
        min_ratio_den: u64,
    ) -> (r: ChangeCouplingTree)
        ensures
            coupling_sorted(r),
            coupling_name(r) == raw_coupling_name(root),
            r is Tree <==> root is Tree,
            coupling_cnv(
                raw_coupling_view(root),
                r,
                min_coupled_revisions as int,
                min_ratio_num as int,
                min_ratio_den as int,
            ),
            ccv_children_distinct(raw_coupling_view(root)) ==> coupling_children_distinct(r),
            r is Leaf ==> forall|i: int|
                0 <= i < r->Leaf_couplings@.len() ==> coupling_keep(
                    #[trigger] r->Leaf_couplings@[i],
                    min_coupled_revisions as int,
                    min_ratio_num as int,
                    min_ratio_den as int,
                ),
            r is Tree ==> forall|i: int|
                0 <= i < r->Tree_children@.len() ==> coupling_pruned(
                    #[trigger] r->Tree_children@[i],
                    min_coupled_revisions as int,
                    min_ratio_num as int,
                    min_ratio_den as int,
                ),
        decreases root,
    {
        let ghost r0 = root;
        let ghost rootv = raw_coupling_view(root);
        let ghost minr = min_coupled_revisions as int;
        let ghost rnum = min_ratio_num as int;
        let ghost rden = min_ratio_den as int;
        match root {
            RawChangeCouplingTree::Tree { name, children } => {
                let ghost children0 = children;
                let ghost cviews = raw_coupling_views(children0@);
                proof {
                    assert(r0 is Tree && r0->Tree_children == children0);
                    assert(rootv == (RawChangeCouplingTreeV::Tree {
                        name: name@,
                        children: cviews,
                    }));
                    lemma_raw_coupling_views(children0@);
                }
                let mut rest = children;
                let mut converted: Vec<ChangeCouplingTree> = Vec::new();
                let ghost mut kept_idx: Seq<int> = Seq::empty();
                proof {
                    assert(children0@.skip(0) =~= children0@);
                }
                while rest.len() > 0
                    invariant
                        r0 == root,
                        r0 is Tree && r0->Tree_children == children0,
                        cviews == raw_coupling_views(children0@),
                        cviews.len() == children0@.len(),
                        forall|k2: int|
                            0 <= k2 < children0@.len() ==> cviews[k2] == raw_coupling_view(
                                #[trigger] children0@[k2],
                            ),
                        minr == min_coupled_revisions as int,
                        rnum == min_ratio_num as int,
                        rden == min_ratio_den as int,
                        rest@.len() <= children0@.len(),
                        rest@ == children0@.skip(children0@.len() - rest@.len()),
                        kept_idx.len() == converted@.len(),
                        forall|i: int|
                            0 <= i < kept_idx.len() ==> 0 <= #[trigger] kept_idx[i]
                                < children0@.len() - rest@.len(),
                        forall|i: int, j: int| 0 <= i < j < kept_idx.len() ==> kept_idx[i] < kept_idx[j],
                        forall|i: int|
                            0 <= i < converted@.len() ==> coupling_sorted(#[trigger] converted@[i]),
                        forall|i: int|
                            0 <= i < converted@.len() ==> coupling_pruned(
                                #[trigger] converted@[i],
                                minr,
                                rnum,
                                rden,
                            ),
                        forall|i: int|
                            0 <= i < converted@.len() ==> coupling_cnv(
                                cviews[kept_idx[i]],
                                #[trigger] converted@[i],
                                minr,
                                rnum,
                                rden,
                            ),
                        forall|i: int|
                            0 <= i < converted@.len() ==> coupling_name(#[trigger] converted@[i])
                                == ccv_name(cviews[kept_idx[i]]),
                        forall|i: int|
                            0 <= i < converted@.len() ==> (ccv_children_distinct(
                                cviews[kept_idx[i]],
                            ) ==> coupling_children_distinct(#[trigger] converted@[i])),
                        forall|j: int|
                            0 <= j < children0@.len() - rest@.len() ==> (coupling_survives(
                                #[trigger] cviews[j],
                                minr,
                                rnum,
                                rden,
                            ) ==> exists|i: int| 0 <= i < kept_idx.len() && kept_idx[i] == j),
                    decreases rest@.len(),
                {
                    let ghost k = children0@.len() - rest@.len();
                    let child = rest.remove(0);
                    proof {
                        assert(child == children0@[k]);
                        assert(decreases_to!(r0 => r0->Tree_children));
                        assert(decreases_to!(children0 => children0@[k]));
                        assert(decreases_to!(r0 => children0@[k]));
                        assert(rest@ =~= children0@.skip(k + 1));
                    }
                    let done = ChangeCouplingTree::from_raw(
                        child,
                        min_coupled_revisions,
                        min_ratio_num,
                        min_ratio_den,
                    );
                    let ghost done_g = done;
                    proof {
                        lemma_raw_coupling_view_name(child);
                    }
                    let keep = match &done {
                        ChangeCouplingTree::Tree { children: cs, .. } => cs.len() > 0,
                        ChangeCouplingTree::Leaf { couplings, .. } => couplings.len() > 0,
                    };
                    let ghost prev_kept = kept_idx;
                    if keep {
                        converted.push(done);
                        proof {
                            kept_idx = kept_idx.push(k);
                            assert(forall|i: int|
                                0 <= i < prev_kept.len() ==> #[trigger] kept_idx[i]
                                    == prev_kept[i]);
                            assert(kept_idx[prev_kept.len() as int] == k);
                        }
                    }
                    proof {
                        if coupling_survives(cviews[k], minr, rnum, rden) {
                            lemma_coupling_survives_nonempty(cviews[k], done_g, minr, rnum, rden);
                            assert(keep);
                        }
                        assert forall|j: int|
                            0 <= j < k + 1 && coupling_survives(
                                #[trigger] cviews[j],
                                minr,
                                rnum,
                                rden,
                            ) implies exists|i: int|
                            0 <= i < kept_idx.len() && kept_idx[i] == j by {
                            if j < k {
                                let i0 = choose|i0: int|
                                    0 <= i0 < prev_kept.len() && prev_kept[i0] == j;
                                assert(kept_idx[i0] == j);
                            } else {
                                assert(kept_idx[kept_idx.len() - 1] == k);
                            }
                        }
                    }
                }
                let sorted = sort_records(converted);
                proof {
                    assert(children0@.len() - rest@.len() == cviews.len());
                    lemma_coupling_assemble(
                        cviews,
                        kept_idx,
                        converted@,
                        sorted@,
                        minr,
                        rnum,
                        rden,
                    );
                    let pre = converted@;
                    let post = sorted@;
                    crate::sorting::lemma_multiset_perm_facts(pre, post);
                    assert forall|i: int| 0 <= i < post.len() implies coupling_sorted(
                        #[trigger] post[i],
                    ) && coupling_pruned(post[i], minr, rnum, rden) by {
                        assert(pre.contains(post[i]));
                        let k2 = choose|k2: int| 0 <= k2 < pre.len() && pre[k2] == post[i];
                        assert(coupling_sorted(pre[k2]));
                        assert(coupling_pruned(pre[k2], minr, rnum, rden));
                    }
                }
                let r = ChangeCouplingTree::Tree { name, children: sorted };
                proof {
                    reveal(coupling_cnv);
                    assert(coupling_cnv(rootv, r, minr, rnum, rden));
                    if ccv_children_distinct(rootv) {
                        assert(coupling_children_distinct(r));
                    }
                }
                r
            },
            RawChangeCouplingTree::Leaf { name, couplings } => {
                let ghost couplings0 = couplings@;
                let ghost cvall = coupling_views(couplings0);
                let n = couplings.len();
                let mut kept: Vec<Coupling> = Vec::new();
                proof {
                    assert(cvall.take(0) =~= Seq::<CouplingV>::empty());
                    assert(coupling_views(kept@) =~= filter_couplings(
                        cvall.take(0),
                        minr,
                        rnum,
                        rden,
                    ));
                }
                let mut i: usize = 0;
                while i < n
                    invariant
                        n == couplings@.len(),
                        couplings0 == couplings@,
                        cvall == coupling_views(couplings0),
                        cvall.len() == n,
                        minr == min_coupled_revisions as int,
                        rnum == min_ratio_num as int,
                        rden == min_ratio_den as int,
                        0 <= i <= n,
                        coupling_views(kept@) == filter_couplings(
                            cvall.take(i as int),
                            minr,
                            rnum,
                            rden,
                        ),
                        forall|j: int|
                            0 <= j < kept@.len() ==> coupling_keep(
                                #[trigger] kept@[j],
                                minr,
                                rnum,
                                rden,
                            ),
                    decreases n - i,
                {
                    proof {
                        assert(cvall.take(i + 1).drop_last() =~= cvall.take(i as int));
                        assert(cvall.take(i + 1).last() == cvall[i as int]);
                        assert(cvall[i as int] == (CouplingV {
                            coupled: couplings@[i as int].coupled@,
                            coupled_revisions: couplings@[i as int].coupled_revisions as int,
                            average_revisions: couplings@[i as int].average_revisions as int,
                        }));
                    }
                    let c = clone_coupling(&couplings[i]);
                    if coupling_passes(&c, min_coupled_revisions, min_ratio_num, min_ratio_den) {
                        let ghost prev = coupling_views(kept@);
                        kept.push(c);
                        proof {
                            assert(coupling_views(kept@) =~= prev.push(cvall[i as int]));
                        }
                    }
                    i += 1;
                }
                proof {
                    assert(cvall.take(n as int) =~= cvall);
                }
                let r = ChangeCouplingTree::Leaf { name, couplings: kept };
                proof {
                    reveal(coupling_cnv);
                    assert(coupling_cnv(rootv, r, minr, rnum, rden));
                }
                r
            },
        }
    }
}

/// A change-coupling tree as first built, before filtering and sorting: a
/// leaf holds every partner of its entity.
pub enum RawChangeCouplingTree {
    /// An internal node, children in insertion order.
    Tree { name: String, children: Vec<RawChangeCouplingTree> },
    /// One entity with all its coupling partners.
    Leaf { name: String, couplings: Vec<Coupling> },
}

/// The name of a node of the unsorted tree.
pub open spec fn raw_coupling_name(t: RawChangeCouplingTree) -> Seq<char> {
    match t {
        RawChangeCouplingTree::Tree { name, .. } => name@,
        RawChangeCouplingTree::Leaf { name, .. } => name@,
    }
}

/// Mathematical value of one coupling partner.
pub struct CouplingV {
    pub coupled: Seq<char>,
    pub coupled_revisions: int,
    pub average_revisions: int,
}

/// The values of a partner list, in order.
pub open spec fn coupling_views(cs: Seq<Coupling>) -> Seq<CouplingV> {
    cs.map_values(
        |c: Coupling|
            CouplingV {
                coupled: c.coupled@,
                coupled_revisions: c.coupled_revisions as int,
                average_revisions: c.average_revisions as int,
            },
    )
}

/// Mathematical value of an unsorted change-coupling tree.
pub enum RawChangeCouplingTreeV {
    /// An internal node.
    Tree { name: Seq<char>, children: Seq<RawChangeCouplingTreeV> },
    /// One entity with all its partners.
    Leaf { name: Seq<char>, couplings: Seq<CouplingV> },
}

/// The name of a node of the mathematical tree.
pub open spec fn ccv_name(t: RawChangeCouplingTreeV) -> Seq<char> {
    match t {
        RawChangeCouplingTreeV::Tree { name, .. } => name,
        RawChangeCouplingTreeV::Leaf { name, .. } => name,
    }
}

/// The mathematical value of an unsorted change-coupling tree.
pub open spec fn raw_coupling_view(t: RawChangeCouplingTree) -> RawChangeCouplingTreeV
    decreases t,
    via raw_coupling_view_decreases
{
    match t {
        RawChangeCouplingTree::Tree { name, children } => RawChangeCouplingTreeV::Tree {
            name: name@,
            children: raw_coupling_views(children@),
        },
        RawChangeCouplingTree::Leaf { name, couplings } => RawChangeCouplingTreeV::Leaf {
            name: name@,
            couplings: coupling_views(couplings@),
        },
    }
}

#[via_fn]
proof fn raw_coupling_view_decreases(t: RawChangeCouplingTree) {
    match t {
        RawChangeCouplingTree::Tree { name, children } => {
            assert(decreases_to!(t => t->Tree_children));
            assert(decreases_to!(t->Tree_children => t->Tree_children@));
            assert(decreases_to!(t => children@));
        },
        RawChangeCouplingTree::Leaf { .. } => {
        },
    }
}

/// The mathematical values of a child list, in order.
pub open spec fn raw_coupling_views(cs: Seq<RawChangeCouplingTree>) -> Seq<RawChangeCouplingTreeV>
    decreases cs,
{
    if cs.len() == 0 {
        Seq::empty()
    } else {
        seq![raw_coupling_view(cs[0])] + raw_coupling_views(cs.drop_first())
    }
}

/// The values of a child list are the children's values, in order.
pub proof fn lemma_raw_coupling_views(cs: Seq<RawChangeCouplingTree>)
    ensures
        raw_coupling_views(cs).len() == cs.len(),
        forall|i: int|
            0 <= i < cs.len() ==> raw_coupling_views(cs)[i] == raw_coupling_view(#[trigger] cs[i]),
    decreases cs,
{
    if cs.len() > 0 {
        lemma_raw_coupling_views(cs.drop_first());
        assert(forall|i: int|
            0 <= i < cs.drop_first().len() ==> #[trigger] cs.drop_first()[i] == cs[i + 1]);
        assert forall|i: int| 0 <= i < cs.len() implies raw_coupling_views(cs)[i]
            == raw_coupling_view(#[trigger] cs[i]) by {
            if i == 0 {
                assert(raw_coupling_views(cs)[0] == raw_coupling_view(cs[0]));
            } else {
                assert(raw_coupling_views(cs)[i] == raw_coupling_views(cs.drop_first())[i - 1]);
                assert(raw_coupling_views(cs.drop_first())[i - 1] == raw_coupling_view(
                    cs.drop_first()[i - 1],
                ));
                assert(cs.drop_first()[i - 1] == cs[i]);
            }
        }
    }
}

/// A node's mathematical name is its name.
proof fn lemma_raw_coupling_view_name(t: RawChangeCouplingTree)
    ensures
        ccv_name(raw_coupling_view(t)) == raw_coupling_name(t),
        raw_coupling_view(t) is Tree <==> t is Tree,
{
    match t {
        RawChangeCouplingTree::Tree { .. } => {
        },
        RawChangeCouplingTree::Leaf { .. } => {
        },
    }
}

/// Index of the first child at or after `i` carrying this name, or `-1`.
pub open spec fn ccv_child_at(
    children: Seq<RawChangeCouplingTreeV>,
    name: Seq<char>,
    i: int,
) -> int
    decreases children.len() - i,
{
    if i < 0 || i >= children.len() {
        -1
    } else if ccv_name(children[i]) == name {
        i
    } else {
        ccv_child_at(children, name, i + 1)
    }
}

/// Index of the first child carrying this name, or `-1`.
pub open spec fn ccv_child_index(children: Seq<RawChangeCouplingTreeV>, name: Seq<char>) -> int {
    ccv_child_at(children, name, 0)
}

proof fn lemma_ccv_child_at_bounds(
    children: Seq<RawChangeCouplingTreeV>,
    name: Seq<char>,
    i: int,
)
    requires
        0 <= i <= children.len(),
    ensures
        ccv_child_at(children, name, i) == -1 || i <= ccv_child_at(children, name, i)
            < children.len(),
        ccv_child_at(children, name, i) >= 0 ==> ccv_name(
            children[ccv_child_at(children, name, i)],
        ) == name,
        ccv_child_at(children, name, i) == -1 ==> forall|k: int|
            i <= k < children.len() ==> ccv_name(#[trigger] children[k]) != name,
    decreases children.len() - i,
{
    if i < children.len() && ccv_name(children[i]) != name {
        lemma_ccv_child_at_bounds(children, name, i + 1);
    }
}

/// One partner record's walk below a node, from segment `si` on: the first
/// leaf found on the way (or created at the final segment) receives the
/// coupling; an existing internal node at the final segment swallows it. A
/// reused child moves to the end of its node's child list.
pub open spec fn insert_coupling_spec(
    node: RawChangeCouplingTreeV,
    segs: Seq<Seq<char>>,
    si: int,
    c: CouplingV,
) -> RawChangeCouplingTreeV
    decreases segs.len() - si,
{
    if si < 0 || si >= segs.len() {
        node
    } else {
        match node {
            RawChangeCouplingTreeV::Tree { name, children } => {
                let part = segs[si];
                let is_last = si == segs.len() - 1;
                let f = ccv_child_index(children, part);
                if f >= 0 {
                    let child2 = match children[f] {
                        RawChangeCouplingTreeV::Leaf { name: leaf_name, couplings } =>
                            RawChangeCouplingTreeV::Leaf {
                            name: leaf_name,
                            couplings: couplings.push(c),
                        },
                        RawChangeCouplingTreeV::Tree { .. } => insert_coupling_spec(
                            children[f],
                            segs,
                            si + 1,
                            c,
                        ),
                    };
                    RawChangeCouplingTreeV::Tree {
                        name,
                        children: children.update(f, children.last()).drop_last().push(child2),
                    }
                } else {
                    if is_last {
                        RawChangeCouplingTreeV::Tree {
                            name,
                            children: children.push(
                                RawChangeCouplingTreeV::Leaf { name: part, couplings: seq![c] },
                            ),
                        }
                    } else {
                        let filled = insert_coupling_spec(
                            RawChangeCouplingTreeV::Tree { name: part, children: Seq::empty() },
                            segs,
                            si + 1,
                            c,
                        );
                        RawChangeCouplingTreeV::Tree { name, children: children.push(filled) }
                    }
                }
            },
            RawChangeCouplingTreeV::Leaf { .. } => node,
        }
    }
}

/// The segment list of one side's name: its path segments, or the whole
/// name as a single segment when names are not split.
pub open spec fn side_segments(name: Seq<char>, split: bool) -> Seq<Seq<char>> {
    if split {
        path_segments(name)
    } else {
        seq![name]
    }
}

/// One report entry's two insertions: the pair is recorded in both
/// directions, at the path of each side's name.
pub open spec fn coupling_entry_step(
    acc: RawChangeCouplingTreeV,
    e: ChangeCouplingEntry,
    split: bool,
) -> RawChangeCouplingTreeV {
    let avg = e.spec_average_revisions();
    let acc1 = insert_coupling_spec(
        acc,
        side_segments(e.left_name@, split),
        0,
        CouplingV {
            coupled: e.right_name@,
            coupled_revisions: e.coupled_revisions as int,
            average_revisions: avg,
        },
    );
    insert_coupling_spec(
        acc1,
        side_segments(e.right_name@, split),
        0,
        CouplingV {
            coupled: e.left_name@,
            coupled_revisions: e.coupled_revisions as int,
            average_revisions: avg,
        },
    )
}

/// The unsorted coupling tree of the entries from index `k` on.
pub open spec fn coupling_build_from(
    entries: Seq<ChangeCouplingEntry>,
    k: int,
    acc: RawChangeCouplingTreeV,
    split: bool,
) -> RawChangeCouplingTreeV
    decreases entries.len() - k,
{
    if k < 0 || k >= entries.len() {
        acc
    } else {
        coupling_build_from(entries, k + 1, coupling_entry_step(acc, entries[k], split), split)
    }
}

/// The unsorted coupling tree of a whole report: every entry recorded in
/// both directions below a root with an empty name.
pub open spec fn coupling_tree_model(
    entries: Seq<ChangeCouplingEntry>,
    split: bool,
) -> RawChangeCouplingTreeV {
    coupling_build_from(
        entries,
        0,
        RawChangeCouplingTreeV::Tree { name: Seq::empty(), children: Seq::empty() },
        split,
    )
}

/// Children carry pairwise distinct names, at every node.
pub open spec fn ccv_children_distinct(t: RawChangeCouplingTreeV) -> bool
    decreases t,
{
    match t {
        RawChangeCouplingTreeV::Tree { children, .. } => {
            &&& forall|i: int, j: int|
                0 <= i < children.len() && 0 <= j < children.len() && i != j ==> ccv_name(
                    #[trigger] children[i],
                ) != ccv_name(#[trigger] children[j])
            &&& forall|i: int|
                0 <= i < children.len() ==> ccv_children_distinct(#[trigger] children[i])
        },
        RawChangeCouplingTreeV::Leaf { .. } => true,
    }
}

/// Insertion keeps a node's name and variant, and never duplicates a child
/// name.
pub proof fn lemma_insert_coupling_spec_wf(
    node: RawChangeCouplingTreeV,
    segs: Seq<Seq<char>>,
    si: int,
    c: CouplingV,
)
    ensures
        ccv_name(insert_coupling_spec(node, segs, si, c)) == ccv_name(node),
        insert_coupling_spec(node, segs, si, c) is Tree <==> node is Tree,
        ccv_children_distinct(node) ==> ccv_children_distinct(
            insert_coupling_spec(node, segs, si, c),
        ),
    decreases segs.len() - si,
{
    let result = insert_coupling_spec(node, segs, si, c);
    if !(si < 0 || si >= segs.len()) && node is Tree {
        let children = node->Tree_children;
        let part = segs[si];
        let is_last = si == segs.len() - 1;
        let f = ccv_child_index(children, part);
        lemma_ccv_child_at_bounds(children, part, 0);
        if f >= 0 {
            let child2 = match children[f] {
                RawChangeCouplingTreeV::Leaf { name: leaf_name, couplings } =>
                    RawChangeCouplingTreeV::Leaf {
                    name: leaf_name,
                    couplings: couplings.push(c),
                },
                RawChangeCouplingTreeV::Tree { .. } => insert_coupling_spec(
                    children[f],
                    segs,
                    si + 1,
                    c,
                ),
            };
            if children[f] is Tree {
                lemma_insert_coupling_spec_wf(children[f], segs, si + 1, c);
            }
            assert(ccv_name(child2) == ccv_name(children[f]));
            let cs2 = children.update(f, children.last()).drop_last().push(child2);
            assert(result->Tree_children == cs2);
            if ccv_children_distinct(node) {
                let n = children.len() as int;
                assert forall|i: int, j: int|
                    0 <= i < cs2.len() && 0 <= j < cs2.len() && i != j implies ccv_name(
                    #[trigger] cs2[i],
                ) != ccv_name(#[trigger] cs2[j]) by {
                    let oi: int = if i == n - 1 {
                        f
                    } else if i == f {
                        n - 1
                    } else {
                        i
                    };
                    let oj: int = if j == n - 1 {
                        f
                    } else if j == f {
                        n - 1
                    } else {
                        j
                    };
                    assert(ccv_name(cs2[i]) == ccv_name(children[oi]));
                    assert(ccv_name(cs2[j]) == ccv_name(children[oj]));
                    assert(oi != oj);
                    assert(ccv_name(children[oi]) != ccv_name(children[oj]));
                }
                assert forall|i: int| 0 <= i < cs2.len() implies ccv_children_distinct(
                    #[trigger] cs2[i],
                ) by {
                    if i == cs2.len() - 1 {
                        assert(ccv_children_distinct(children[f]));
                        assert(ccv_children_distinct(child2));
                    } else if i == f {
                        assert(cs2[i] == children[n - 1]);
                        assert(ccv_children_distinct(children[n - 1]));
                    } else {
                        assert(cs2[i] == children[i]);
                        assert(ccv_children_distinct(children[i]));
                    }
                }
                assert(ccv_children_distinct(result));
            }
        } else if is_last {
            let cs2 = children.push(
                RawChangeCouplingTreeV::Leaf { name: part, couplings: seq![c] },
            );
            assert(result->Tree_children == cs2);
            if ccv_children_distinct(node) {
                assert forall|i: int, j: int|
                    0 <= i < cs2.len() && 0 <= j < cs2.len() && i != j implies ccv_name(
                    #[trigger] cs2[i],
                ) != ccv_name(#[trigger] cs2[j]) by {
                    if i < children.len() && j < children.len() {
                        assert(ccv_name(children[i]) != ccv_name(children[j]));
                    } else {
                        let older: int = if i < children.len() {
                            i
                        } else {
                            j
                        };
                        assert(ccv_name(children[older]) != part);
                    }
                }
                assert forall|i: int| 0 <= i < cs2.len() implies ccv_children_distinct(
                    #[trigger] cs2[i],
                ) by {
                    if i < children.len() {
                        assert(cs2[i] == children[i]);
                        assert(ccv_children_distinct(children[i]));
                    }
                }
                assert(ccv_children_distinct(result));
            }
        } else {
            let fresh = RawChangeCouplingTreeV::Tree { name: part, children: Seq::empty() };
            lemma_insert_coupling_spec_wf(fresh, segs, si + 1, c);
            let filled = insert_coupling_spec(fresh, segs, si + 1, c);
            let cs2 = children.push(filled);
            assert(result->Tree_children == cs2);
            if ccv_children_distinct(node) {
                assert(ccv_children_distinct(fresh));
                assert(ccv_children_distinct(filled));
                assert(ccv_name(filled) == part);
                assert forall|i: int, j: int|
                    0 <= i < cs2.len() && 0 <= j < cs2.len() && i != j implies ccv_name(
                    #[trigger] cs2[i],
                ) != ccv_name(#[trigger] cs2[j]) by {
                    if i < children.len() && j < children.len() {
                        assert(ccv_name(children[i]) != ccv_name(children[j]));
                    } else {
                        let older: int = if i < children.len() {
                            i
                        } else {
                            j
                        };
                        assert(ccv_name(children[older]) != part);
                    }
                }
                assert forall|i: int| 0 <= i < cs2.len() implies ccv_children_distinct(
                    #[trigger] cs2[i],
                ) by {
                    if i < children.len() {
                        assert(cs2[i] == children[i]);
                        assert(ccv_children_distinct(children[i]));
                    }
                }
                assert(ccv_children_distinct(result));
            }
        }
    }
}

/// The whole built tree never carries two children with one name under one
/// node: the build map is keyed by name.
pub proof fn lemma_coupling_model_distinct(entries: Seq<ChangeCouplingEntry>, split: bool)
    ensures
        ccv_children_distinct(coupling_tree_model(entries, split)),
        coupling_tree_model(entries, split) is Tree,
        ccv_name(coupling_tree_model(entries, split)) == Seq::<char>::empty(),
{
    let init = RawChangeCouplingTreeV::Tree { name: Seq::empty(), children: Seq::empty() };
    lemma_coupling_build_distinct(entries, 0, init, split);
}

proof fn lemma_coupling_build_distinct(
    entries: Seq<ChangeCouplingEntry>,
    k: int,
    acc: RawChangeCouplingTreeV,
    split: bool,
)
    requires
        ccv_children_distinct(acc),
    ensures
        ccv_children_distinct(coupling_build_from(entries, k, acc, split)),
        ccv_name(coupling_build_from(entries, k, acc, split)) == ccv_name(acc),
        coupling_build_from(entries, k, acc, split) is Tree <==> acc is Tree,
    decreases entries.len() - k,
{
    if !(k < 0 || k >= entries.len()) {
        let e = entries[k];
        let avg = e.spec_average_revisions();
        let c1 = CouplingV {
            coupled: e.right_name@,
            coupled_revisions: e.coupled_revisions as int,
            average_revisions: avg,
        };
        let c2 = CouplingV {
            coupled: e.left_name@,
            coupled_revisions: e.coupled_revisions as int,
            average_revisions: avg,
        };
        lemma_insert_coupling_spec_wf(acc, side_segments(e.left_name@, split), 0, c1);
        let acc1 = insert_coupling_spec(acc, side_segments(e.left_name@, split), 0, c1);
        lemma_insert_coupling_spec_wf(acc1, side_segments(e.right_name@, split), 0, c2);
        lemma_coupling_build_distinct(entries, k + 1, coupling_entry_step(acc, e, split), split);
    }
}

/// Whether a partner's mathematical value passes the thresholds, exactly as
/// `coupling_keep` decides for a partner record.
pub open spec fn coupling_keep_v(c: CouplingV, min_revisions: int, ratio_num: int, ratio_den: int) -> bool {
    &&& c.coupled_revisions >= min_revisions
    &&& c.coupled_revisions * ratio_den >= ratio_num * c.average_revisions
}

/// The partners passing the thresholds, in their original order.
pub open spec fn filter_couplings(
    cs: Seq<CouplingV>,
    min_revisions: int,
    ratio_num: int,
    ratio_den: int,
) -> Seq<CouplingV>
    decreases cs.len(),
{
    if cs.len() == 0 {
        Seq::empty()
    } else {
        let rest = filter_couplings(cs.drop_last(), min_revisions, ratio_num, ratio_den);
        if coupling_keep_v(cs.last(), min_revisions, ratio_num, ratio_den) {
            rest.push(cs.last())
        } else {
            rest
        }
    }
}

/// Whether anything of a built node survives the thresholds: a leaf with a
/// passing partner, or an internal node with a surviving child.
pub open spec fn coupling_survives(
    raw: RawChangeCouplingTreeV,
    min_revisions: int,
    ratio_num: int,
    ratio_den: int,
) -> bool
    decreases raw,
{
    match raw {
        RawChangeCouplingTreeV::Tree { children, .. } => exists|j: int|
            0 <= j < children.len() && coupling_survives(
                #[trigger] children[j],
                min_revisions,
                ratio_num,
                ratio_den,
            ),
        RawChangeCouplingTreeV::Leaf { couplings, .. } => filter_couplings(
            couplings,
            min_revisions,
            ratio_num,
            ratio_den,
        ).len() > 0,
    }
}

/// The filtered tree `t` presents the built tree `raw`: same name and
/// variant; a leaf keeps exactly the partners passing the thresholds, in
/// their original order; every child of `t` presents a built child, and
/// every built child with surviving content is presented.
#[verifier::opaque]
pub open spec fn coupling_cnv(
    raw: RawChangeCouplingTreeV,
    t: ChangeCouplingTree,
    min_revisions: int,
    ratio_num: int,
    ratio_den: int,
) -> bool
    decreases raw, 0int,
{
    match raw {
        RawChangeCouplingTreeV::Tree { name, children } => {
            &&& t is Tree
            &&& coupling_name(t) == name
            &&& forall|i: int|
                0 <= i < t->Tree_children@.len() ==> coupling_presented(
                    children,
                    #[trigger] t->Tree_children@[i],
                    min_revisions,
                    ratio_num,
                    ratio_den,
                )
            &&& forall|j: int|
                0 <= j < children.len() ==> (coupling_survives(
                    #[trigger] children[j],
                    min_revisions,
                    ratio_num,
                    ratio_den,
                ) ==> coupling_included(
                    t->Tree_children@,
                    children[j],
                    min_revisions,
                    ratio_num,
                    ratio_den,
                ))
        },
        RawChangeCouplingTreeV::Leaf { name, couplings } => {
            &&& t is Leaf
            &&& coupling_name(t) == name
            &&& coupling_views(t->Leaf_couplings@) == filter_couplings(
                couplings,
                min_revisions,
                ratio_num,
                ratio_den,
            )
        },
    }
}

/// The node `t` presents one of the built children.
pub open spec fn coupling_presented(
    cviews: Seq<RawChangeCouplingTreeV>,
    t: ChangeCouplingTree,
    min_revisions: int,
    ratio_num: int,
    ratio_den: int,
) -> bool
    decreases cviews, 0int,
{
    exists|j: int|
        0 <= j < cviews.len() && coupling_cnv(
            #[trigger] cviews[j],
            t,
            min_revisions,
            ratio_num,
            ratio_den,
        )
}

/// The built node `raw` is presented by one of the children.
pub open spec fn coupling_included(
    children: Seq<ChangeCouplingTree>,
    raw: RawChangeCouplingTreeV,
    min_revisions: int,
    ratio_num: int,
    ratio_den: int,
) -> bool
    decreases raw, 1int,
{
    exists|i: int|
        0 <= i < children.len() && coupling_cnv(
            raw,
            #[trigger] children[i],
            min_revisions,
            ratio_num,
            ratio_den,
        )
}

/// Children of the filtered tree carry pairwise distinct names, at every
/// node: with the sorted order this makes child names strictly ascending.
pub open spec fn coupling_children_distinct(t: ChangeCouplingTree) -> bool
    decreases t,
{
    match t {
        ChangeCouplingTree::Tree { children, .. } => {
            &&& forall|i: int, j: int|
                0 <= i < children@.len() && 0 <= j < children@.len() && i != j ==> coupling_name(
                    #[trigger] children@[i],
                ) != coupling_name(#[trigger] children@[j])
            &&& forall|i: int|
                0 <= i < children@.len() ==> coupling_children_distinct(#[trigger] children@[i])
        },
        ChangeCouplingTree::Leaf { .. } => true,
    }
}

/// A built node with surviving content converts to a non-empty node.
proof fn lemma_coupling_survives_nonempty(
    raw: RawChangeCouplingTreeV,
    t: ChangeCouplingTree,
    min_revisions: int,
    ratio_num: int,
    ratio_den: int,
)
    requires
        coupling_cnv(raw, t, min_revisions, ratio_num, ratio_den),
        coupling_survives(raw, min_revisions, ratio_num, ratio_den),
    ensures
        t is Tree ==> t->Tree_children@.len() > 0,
        t is Leaf ==> t->Leaf_couplings@.len() > 0,
{
    reveal(coupling_cnv);
    match raw {
        RawChangeCouplingTreeV::Tree { name, children } => {
            let j = choose|j: int|
                0 <= j < children.len() && coupling_survives(
                    #[trigger] children[j],
                    min_revisions,
                    ratio_num,
                    ratio_den,
                );
            assert(coupling_included(
                t->Tree_children@,
                children[j],
                min_revisions,
                ratio_num,
                ratio_den,
            ));
            let i = choose|i: int|
                0 <= i < t->Tree_children@.len() && coupling_cnv(
                    children[j],
                    #[trigger] t->Tree_children@[i],
                    min_revisions,
                    ratio_num,
                    ratio_den,
                );
            assert(t->Tree_children@.len() > 0);
        },
        RawChangeCouplingTreeV::Leaf { name, couplings } => {
            assert(coupling_views(t->Leaf_couplings@).len() == filter_couplings(
                couplings,
                min_revisions,
                ratio_num,
                ratio_den,
            ).len());
        },
    }
}

/// Walks one entity name's segments below the node and records the partner
/// at the first leaf reached, as `insert_coupling_spec` describes: a leaf
/// found (or created, at the final segment) on the way receives the
/// coupling; an existing internal node at the final segment swallows it.
fn insert_coupling(
    node: RawChangeCouplingTree,
    segs: &Vec<String>,
    si: usize,
    coupled: &String,
    coupled_revisions: u64,
    average_revisions: u64,
) -> (r: RawChangeCouplingTree)
    requires
        si <= segs@.len(),
    ensures
        raw_coupling_view(r) == insert_coupling_spec(
            raw_coupling_view(node),
            segs.deep_view(),
            si as int,
            CouplingV {
                coupled: coupled@,
                coupled_revisions: coupled_revisions as int,
                average_revisions: average_revisions as int,
            },
        ),
        raw_coupling_name(r) == raw_coupling_name(node),
        r is Tree <==> node is Tree,
    decreases segs@.len() - si,
{
    let ghost nodev = raw_coupling_view(node);
    let ghost segsv = segs.deep_view();
    let ghost cv = CouplingV {
        coupled: coupled@,
        coupled_revisions: coupled_revisions as int,
        average_revisions: average_revisions as int,
    };
    if si >= segs.len() {
        return node;
    }
    match node {
        RawChangeCouplingTree::Tree { name, mut children } => {
            proof {
                assert(nodev == (RawChangeCouplingTreeV::Tree {
                    name: name@,
                    children: raw_coupling_views(children@),
                }));
                lemma_raw_coupling_views(children@);
            }
            let ghost cviews = raw_coupling_views(children@);
            let part = &segs[si];
            proof {
                assert(segsv[si as int] == segs@[si as int]@);
            }
            let is_last = si == segs.len() - 1;
            let n = children.len();
            let mut found: Option<usize> = None;
            proof {
                assert(ccv_child_index(cviews, part@) == ccv_child_at(cviews, part@, 0));
            }
            let mut i: usize = 0;
            while i < n
                invariant
                    n == children@.len(),
                    cviews == raw_coupling_views(children@),
                    cviews.len() == n,
                    forall|k: int|
                        0 <= k < n ==> cviews[k] == raw_coupling_view(#[trigger] children@[k]),
                    0 <= i <= n,
                    0 <= si < segsv.len(),
                    part@ == segsv[si as int],
                    match found {
                        Some(f) => f < n && ccv_child_index(cviews, part@) == f,
                        None => ccv_child_index(cviews, part@) == ccv_child_at(
                            cviews,
                            part@,
                            i as int,
                        ),
                    },
                decreases n - i,
            {
                let child_name = children[i].name_raw();
                proof {
                    lemma_raw_coupling_view_name(children@[i as int]);
                    assert(ccv_name(cviews[i as int]) == child_name@);
                }
                if found.is_none() && crate::text::str_eq(child_name, part.as_str()) {
                    found = Some(i);
                }
                i += 1;
            }
            proof {
                if found is None {
                    assert(ccv_child_index(cviews, part@) == -1);
                }
            }
            match found {
                Some(f) => {
                    let ghost before = children@;
                    let child = children.swap_remove(f);
                    let ghost child_v = cviews[f as int];
                    proof {
                        assert(child == before[f as int]);
                        assert(raw_coupling_view(child) == child_v);
                    }
                    let child2 = match child {
                        RawChangeCouplingTree::Leaf { name: leaf_name, mut couplings } => {
                            let ghost coup0 = couplings@;
                            couplings.push(
                                Coupling {
                                    coupled: coupled.clone(),
                                    coupled_revisions,
                                    average_revisions,
                                },
                            );
                            proof {
                                assert(coupling_views(couplings@) =~= coupling_views(coup0).push(
                                    cv,
                                ));
                            }
                            RawChangeCouplingTree::Leaf { name: leaf_name, couplings }
                        },
                        inner => insert_coupling(
                            inner,
                            segs,
                            si + 1,
                            coupled,
                            coupled_revisions,
                            average_revisions,
                        ),
                    };
                    let ghost child2_v = raw_coupling_view(child2);
                    proof {
                        assert(child2_v == (match child_v {
                            RawChangeCouplingTreeV::Leaf { name: ln, couplings: cp } =>
                                RawChangeCouplingTreeV::Leaf { name: ln, couplings: cp.push(cv) },
                            RawChangeCouplingTreeV::Tree { .. } => insert_coupling_spec(
                                child_v,
                                segsv,
                                si + 1,
                                cv,
                            ),
                        }));
                    }
                    children.push(child2);
                    proof {
                        lemma_raw_coupling_views(children@);
                        let target = cviews.update(f as int, cviews.last()).drop_last().push(
                            child2_v,
                        );
                        assert forall|k: int|
                            0 <= k < children@.len() implies raw_coupling_views(children@)[k]
                            == target[k] by {
                            if k == children@.len() - 1 {
                                assert(children@[k] == child2);
                            } else if k == f {
                                assert(children@[k] == before[before.len() - 1]);
                            } else {
                                assert(children@[k] == before[k]);
                            }
                        }
                        assert(raw_coupling_views(children@) =~= target);
                    }
                    let r = RawChangeCouplingTree::Tree { name, children };
                    proof {
                        assert(raw_coupling_view(r) == insert_coupling_spec(
                            nodev,
                            segsv,
                            si as int,
                            cv,
                        ));
                    }
                    r
                },
                None => {
                    if is_last {
                        let mut couplings: Vec<Coupling> = Vec::new();
                        couplings.push(
                            Coupling {
                                coupled: coupled.clone(),
                                coupled_revisions,
                                average_revisions,
                            },
                        );
                        proof {
                            assert(coupling_views(couplings@) =~= seq![cv]);
                        }
                        let leaf = RawChangeCouplingTree::Leaf { name: part.clone(), couplings };
                        let ghost leaf_v = raw_coupling_view(leaf);
                        proof {
                            assert(leaf_v == (RawChangeCouplingTreeV::Leaf {
                                name: part@,
                                couplings: seq![cv],
                            }));
                        }
                        let ghost before = children@;
                        children.push(leaf);
                        proof {
                            lemma_raw_coupling_views(children@);
                            let target = cviews.push(leaf_v);
                            assert forall|k: int|
                                0 <= k < children@.len() implies raw_coupling_views(children@)[k]
                                == target[k] by {
                                if k < before.len() {
                                    assert(children@[k] == before[k]);
                                    assert(cviews[k] == raw_coupling_view(before[k]));
                                } else {
                                    assert(children@[k] == leaf);
                                }
                            }
                            assert(raw_coupling_views(children@) =~= target);
                        }
                        let r = RawChangeCouplingTree::Tree { name, children };
                        proof {
                            assert(raw_coupling_view(r) == insert_coupling_spec(
                                nodev,
                                segsv,
                                si as int,
                                cv,
                            ));
                        }
                        r
                    } else {
                        let fresh = RawChangeCouplingTree::Tree {
                            name: part.clone(),
                            children: Vec::new(),
                        };
                        proof {
                            assert(raw_coupling_views(fresh->Tree_children@)
                                =~= Seq::<RawChangeCouplingTreeV>::empty());
                            assert(raw_coupling_view(fresh) == (RawChangeCouplingTreeV::Tree {
                                name: part@,
                                children: Seq::empty(),
                            }));
                        }
                        let filled = insert_coupling(
                            fresh,
                            segs,
                            si + 1,
                            coupled,
                            coupled_revisions,
                            average_revisions,
                        );
                        let ghost filled_v = raw_coupling_view(filled);
                        let ghost before = children@;
                        children.push(filled);
                        proof {
                            lemma_raw_coupling_views(children@);
                            let target = cviews.push(filled_v);
                            assert forall|k: int|
                                0 <= k < children@.len() implies raw_coupling_views(children@)[k]
                                == target[k] by {
                                if k < before.len() {
                                    assert(children@[k] == before[k]);
                                    assert(cviews[k] == raw_coupling_view(before[k]));
                                } else {
                                    assert(children@[k] == filled);
                                }
                            }
                            assert(raw_coupling_views(children@) =~= target);
                        }
                        let r = RawChangeCouplingTree::Tree { name, children };
                        proof {
                            assert(raw_coupling_view(r) == insert_coupling_spec(
                                nodev,
                                segsv,
                                si as int,
                                cv,
                            ));
                        }
                        r
                    }
                },
            }
        },
        RawChangeCouplingTree::Leaf { name, couplings } => {
            let r = RawChangeCouplingTree::Leaf { name, couplings };
            proof {
                assert(raw_coupling_view(r) == nodev);
            }
            r
        },
    }
}

impl RawChangeCouplingTree {
    /// The node's name.
    fn name_raw(&self) -> (r: &str)
        ensures
            r@ == raw_coupling_name(*self),
    {
        match self {
            RawChangeCouplingTree::Tree { name, .. } => name.as_str(),
            RawChangeCouplingTree::Leaf { name, .. } => name.as_str(),
        }
    }

    /// Builds the unsorted tree of a change-coupling report, as
    /// `coupling_tree_model` describes: each pair is recorded in both
    /// directions, at the path of each side's name (or under the whole name
    /// as a single segment, when names are not split). The root is an
    /// internal node with an empty name.
    pub fn from_vec(change_couplings: &Vec<ChangeCouplingEntry>, split_at_path_separator: bool) -> (r:
        RawChangeCouplingTree)
        requires
            forall|i: int|
                0 <= i < change_couplings@.len() ==> (#[trigger] change_couplings@[i]).num_left_revisions
                    + change_couplings@[i].num_right_revisions <= u64::MAX,
        ensures
            raw_coupling_view(r) == coupling_tree_model(
                change_couplings@,
                split_at_path_separator,
            ),
            r is Tree,
            raw_coupling_name(r) == Seq::<char>::empty(),
    {
        let n = change_couplings.len();
        let root_name = String::new();
        let mut root = RawChangeCouplingTree::Tree { name: root_name, children: Vec::new() };
        proof {
            assert(raw_coupling_views(root->Tree_children@)
                =~= Seq::<RawChangeCouplingTreeV>::empty());
            assert(raw_coupling_view(root) == (RawChangeCouplingTreeV::Tree {
                name: Seq::empty(),
                children: Seq::empty(),
            }));
        }
        let mut k: usize = 0;
        while k < n
            invariant
                n == change_couplings@.len(),
                forall|i: int|
                    0 <= i < change_couplings@.len() ==> (#[trigger] change_couplings@[i]).num_left_revisions
                        + change_couplings@[i].num_right_revisions <= u64::MAX,
                0 <= k <= n,
                root is Tree,
                raw_coupling_name(root) == Seq::<char>::empty(),
                coupling_build_from(
                    change_couplings@,
                    k as int,
                    raw_coupling_view(root),
                    split_at_path_separator,
                ) == coupling_tree_model(change_couplings@, split_at_path_separator),
            decreases n - k,
        {
            let entry = &change_couplings[k];
            let ghost ev = change_couplings@[k as int];
            let average = entry.average_revisions();
            proof {
                assert(average as int == ev.spec_average_revisions());
            }
            let left_segs = if split_at_path_separator {
                split_segments(entry.left_name.as_str())
            } else {
                let mut one: Vec<String> = Vec::new();
                one.push(entry.left_name.clone());
                one
            };
            proof {
                assert(left_segs.deep_view() =~= side_segments(
                    ev.left_name@,
                    split_at_path_separator,
                ));
            }
            root = insert_coupling(
                root,
                &left_segs,
                0,
                &entry.right_name,
                entry.coupled_revisions,
                average,
            );
            let right_segs = if split_at_path_separator {
                split_segments(entry.right_name.as_str())
            } else {
                let mut one: Vec<String> = Vec::new();
                one.push(entry.right_name.clone());
                one
            };
            proof {
                assert(right_segs.deep_view() =~= side_segments(
                    ev.right_name@,
                    split_at_path_separator,
                ));
            }
            root = insert_coupling(
                root,
                &right_segs,
                0,
                &entry.left_name,
                entry.coupled_revisions,
                average,
            );
            k += 1;
        }
        root
    }
}

/// A field-for-field copy of one partner record.
fn clone_coupling(c: &Coupling) -> (r: Coupling)
    ensures
        r == *c,
{
    Coupling {
        coupled: c.coupled.clone(),
        coupled_revisions: c.coupled_revisions,
        average_revisions: c.average_revisions,
    }
}

/// Sorting kept converted children preserves what each presents: every
/// output child presents a built child, every surviving built child is
/// presented, and with pairwise distinct built names the output names and
/// subtrees' distinctness carry over.
#[verifier::rlimit(100)]
#[verifier::spinoff_prover]
proof fn lemma_coupling_assemble(
    cviews: Seq<RawChangeCouplingTreeV>,
    kept_idx: Seq<int>,
    pre: Seq<ChangeCouplingTree>,
    post: Seq<ChangeCouplingTree>,
    min_revisions: int,
    ratio_num: int,
    ratio_den: int,
)
    requires
        pre.to_multiset() == post.to_multiset(),
        post.len() == pre.len(),
        kept_idx.len() == pre.len(),
        forall|i: int| 0 <= i < kept_idx.len() ==> 0 <= #[trigger] kept_idx[i] < cviews.len(),
        forall|i: int, j: int| 0 <= i < j < kept_idx.len() ==> kept_idx[i] < kept_idx[j],
        forall|i: int|
            0 <= i < pre.len() ==> coupling_cnv(
                cviews[kept_idx[i]],
                #[trigger] pre[i],
                min_revisions,
                ratio_num,
                ratio_den,
            ),
        forall|i: int|
            0 <= i < pre.len() ==> coupling_name(#[trigger] pre[i]) == ccv_name(
                cviews[kept_idx[i]],
            ),
        forall|j: int|
            0 <= j < cviews.len() ==> (coupling_survives(
                #[trigger] cviews[j],
                min_revisions,
                ratio_num,
                ratio_den,
            ) ==> exists|i: int| 0 <= i < kept_idx.len() && kept_idx[i] == j),
        forall|i: int|
            0 <= i < pre.len() ==> (ccv_children_distinct(cviews[kept_idx[i]])
                ==> coupling_children_distinct(#[trigger] pre[i])),
    ensures
        forall|i: int|
            0 <= i < post.len() ==> coupling_presented(
                cviews,
                #[trigger] post[i],
                min_revisions,
                ratio_num,
                ratio_den,
            ),
        forall|j: int|
            0 <= j < cviews.len() ==> (coupling_survives(
                #[trigger] cviews[j],
                min_revisions,
                ratio_num,
                ratio_den,
            ) ==> coupling_included(post, cviews[j], min_revisions, ratio_num, ratio_den)),
        ((forall|i: int, j: int|
            0 <= i < cviews.len() && 0 <= j < cviews.len() && i != j ==> ccv_name(
                #[trigger] cviews[i],
            ) != ccv_name(#[trigger] cviews[j])) && (forall|i: int|
            0 <= i < cviews.len() ==> ccv_children_distinct(#[trigger] cviews[i]))) ==> ((forall|
            i: int,
            j: int,
        |
            0 <= i < post.len() && 0 <= j < post.len() && i != j ==> coupling_name(
                #[trigger] post[i],
            ) != coupling_name(#[trigger] post[j])) && (forall|i: int|
            0 <= i < post.len() ==> coupling_children_distinct(#[trigger] post[i]))),
{
    crate::sorting::lemma_multiset_perm_facts(pre, post);
    assert forall|i: int| 0 <= i < post.len() implies coupling_presented(
        cviews,
        #[trigger] post[i],
        min_revisions,
        ratio_num,
        ratio_den,
    ) by {
        assert(pre.contains(post[i]));
        let k2 = choose|k2: int| 0 <= k2 < pre.len() && pre[k2] == post[i];
        assert(0 <= kept_idx[k2] < cviews.len() && coupling_cnv(
            cviews[kept_idx[k2]],
            post[i],
            min_revisions,
            ratio_num,
            ratio_den,
        ));
    }
    assert forall|j: int|
        0 <= j < cviews.len() && coupling_survives(
            #[trigger] cviews[j],
            min_revisions,
            ratio_num,
            ratio_den,
        ) implies coupling_included(post, cviews[j], min_revisions, ratio_num, ratio_den) by {
        let i = choose|i: int| 0 <= i < kept_idx.len() && kept_idx[i] == j;
        assert(coupling_cnv(cviews[j], pre[i], min_revisions, ratio_num, ratio_den));
        assert(post.contains(pre[i]));
        let i2 = choose|i2: int| 0 <= i2 < post.len() && post[i2] == pre[i];
        assert(0 <= i2 < post.len() && coupling_cnv(
            cviews[j],
            post[i2],
            min_revisions,
            ratio_num,
            ratio_den,
        ));
    }
    if (forall|i: int, j: int|
        0 <= i < cviews.len() && 0 <= j < cviews.len() && i != j ==> ccv_name(#[trigger] cviews[i])
            != ccv_name(#[trigger] cviews[j])) && (forall|i: int|
        0 <= i < cviews.len() ==> ccv_children_distinct(#[trigger] cviews[i])) {
        assert forall|i: int, j: int|
            0 <= i < pre.len() && 0 <= j < pre.len() && i != j implies coupling_name(
            #[trigger] pre[i],
        ) != coupling_name(#[trigger] pre[j]) by {
            assert(coupling_name(pre[i]) == ccv_name(cviews[kept_idx[i]]));
            assert(coupling_name(pre[j]) == ccv_name(cviews[kept_idx[j]]));
            if i < j {
                assert(kept_idx[i] < kept_idx[j]);
            } else {
                assert(kept_idx[j] < kept_idx[i]);
            }
        }
        crate::sorting::lemma_key_distinct_transfer(
            pre,
            post,
            |t: ChangeCouplingTree| coupling_name(t),
        );
        assert forall|i: int, j: int|
            0 <= i < post.len() && 0 <= j < post.len() && i != j implies coupling_name(
            #[trigger] post[i],
        ) != coupling_name(#[trigger] post[j]) by {
            let keyf = |t: ChangeCouplingTree| coupling_name(t);
            assert(keyf(post[i]) != keyf(post[j]));
        }
        assert forall|i: int| 0 <= i < post.len() implies coupling_children_distinct(
            #[trigger] post[i],
        ) by {
            assert(pre.contains(post[i]));
            let k2 = choose|k2: int| 0 <= k2 < pre.len() && pre[k2] == post[i];
            assert(ccv_children_distinct(cviews[kept_idx[k2]]));
        }
    }
}


} // verus!
