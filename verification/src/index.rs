//! The coarse spatial index: a balanced tree over polygon bounding boxes,
//! bulk-packed from a full entry set, extended by least-enlargement
//! insertion, and queried by point to produce candidate entries.
//!
//! Leaves hold runs of entries; an inner node's box covers its children.
//! Bulk construction packs consecutive entries into leaves and joins them by
//! halving, so a bulk-built tree's traversal order is insertion order.

use vstd::prelude::*;
use vstd::multiset::Multiset;
use vstd::seq_lib::group_filter_ensures;
use vstd::seq_lib::group_to_multiset_ensures;
use crate::geometry::Point;
use crate::bbox::BoundingBox;
use crate::bbox::box_union;
use crate::bbox::box_contains_pt;
use crate::bbox::box_in_box;
use crate::bbox::box_bounded;

verus! {

broadcast use group_filter_ensures, group_to_multiset_ensures, vstd::multiset::group_multiset_axioms;

/// Entries per leaf at bulk construction.
pub const LEAF_CAP: usize = 8;

/// A leaf splits when an insertion pushes it past this occupancy.
pub const LEAF_MAX: usize = 16;

/// One indexed polygon: its bounding box and its insertion-order position,
/// the stable identifier into the generation's polygon table.
#[derive(Clone, Copy, PartialEq, Eq, Structural, Debug)]
pub struct IndexEntry {
    pub bbox: BoundingBox,
    pub position: usize,
}

pub enum Node {
    Leaf { bbox: BoundingBox, items: Vec<IndexEntry> },
    Inner { bbox: BoundingBox, left: Box<Node>, right: Box<Node> },
}

pub open spec fn node_bbox(n: Node) -> BoundingBox {
    match n {
        Node::Leaf { bbox, .. } => bbox,
        Node::Inner { bbox, .. } => bbox,
    }
}

/// The entries of a subtree, in traversal order.
pub open spec fn node_entries(n: Node) -> Seq<IndexEntry>
    decreases n,
{
    match n {
        Node::Leaf { items, .. } => items@,
        Node::Inner { left, right, .. } => node_entries(*left) + node_entries(*right),
    }
}

/// Well-formed subtree: every box is bounded and covers its contents.
pub open spec fn node_wf(n: Node) -> bool
    decreases n,
{
    match n {
        Node::Leaf { bbox, items } => {
            &&& box_bounded(bbox)
            &&& forall|i: int|
                0 <= i < items@.len() ==> box_in_box((#[trigger] items@[i]).bbox, bbox)
                    && box_bounded(items@[i].bbox)
        },
        Node::Inner { bbox, left, right } => {
            &&& box_bounded(bbox)
            &&& node_wf(*left)
            &&& node_wf(*right)
            &&& box_in_box(node_bbox(*left), bbox)
            &&& box_in_box(node_bbox(*right), bbox)
        },
    }
}

/// In a well-formed subtree, every entry's box lies inside the node's box.
pub proof fn lemma_node_entries_covered(n: Node)
    requires
        node_wf(n),
    ensures
        forall|i: int|
            0 <= i < node_entries(n).len() ==> box_in_box(
                (#[trigger] node_entries(n)[i]).bbox,
                node_bbox(n),
            ) && box_bounded(node_entries(n)[i].bbox),
    decreases n,
{
    match n {
        Node::Leaf { .. } => {},
        Node::Inner { bbox, left, right } => {
            lemma_node_entries_covered(*left);
            lemma_node_entries_covered(*right);
            let ll = node_entries(*left).len() as int;
            assert forall|i: int| 0 <= i < node_entries(n).len() implies box_in_box(
                (#[trigger] node_entries(n)[i]).bbox,
                node_bbox(n),
            ) && box_bounded(node_entries(n)[i].bbox) by {
                if i < ll {
                    assert(node_entries(n)[i] == node_entries(*left)[i]);
                } else {
                    assert(node_entries(n)[i] == node_entries(*right)[i - ll]);
                }
            }
        },
    }
}

/// The fold of a non-empty entry run's boxes under union.
pub open spec fn entries_bbox(s: Seq<IndexEntry>) -> BoundingBox
    decreases s.len(),
{
    if s.len() <= 1 {
        s[0].bbox
    } else {
        box_union(entries_bbox(s.drop_last()), s[s.len() - 1].bbox)
    }
}

proof fn lemma_entries_bbox_covers(s: Seq<IndexEntry>)
    requires
        s.len() >= 1,
    ensures
        forall|i: int| 0 <= i < s.len() ==> box_in_box((#[trigger] s[i]).bbox, entries_bbox(s)),
    decreases s.len(),
{
    if s.len() > 1 {
        lemma_entries_bbox_covers(s.drop_last());
        assert forall|i: int| 0 <= i < s.len() implies box_in_box(
            (#[trigger] s[i]).bbox,
            entries_bbox(s),
        ) by {
            if i < s.len() - 1 {
                assert(box_in_box(s.drop_last()[i].bbox, entries_bbox(s.drop_last())));
            }
        }
    }
}

proof fn lemma_entries_bbox_least(s: Seq<IndexEntry>, outer: BoundingBox)
    requires
        s.len() >= 1,
        forall|i: int| 0 <= i < s.len() ==> box_in_box((#[trigger] s[i]).bbox, outer),
    ensures
        box_in_box(entries_bbox(s), outer),
    decreases s.len(),
{
    if s.len() > 1 {
        lemma_entries_bbox_least(s.drop_last(), outer);
    }
}

proof fn lemma_entries_bbox_bounded(s: Seq<IndexEntry>)
    requires
        s.len() >= 1,
        forall|i: int| 0 <= i < s.len() ==> box_bounded((#[trigger] s[i]).bbox),
    ensures
        box_bounded(entries_bbox(s)),
    decreases s.len(),
{
    if s.len() > 1 {
        lemma_entries_bbox_bounded(s.drop_last());
    }
}

/// A well-formed node's own box is bounded.
proof fn lemma_node_bbox_bounded(n: Node)
    requires
        node_wf(n),
    ensures
        box_bounded(node_bbox(n)),
{
    match n {
        Node::Leaf { .. } => {},
        Node::Inner { .. } => {},
    }
}

fn union_exec(a: BoundingBox, b: BoundingBox) -> (u: BoundingBox)
    ensures
        u == box_union(a, b),
{
    BoundingBox {
        min_x: if a.min_x <= b.min_x {
            a.min_x
        } else {
            b.min_x
        },
        min_y: if a.min_y <= b.min_y {
            a.min_y
        } else {
            b.min_y
        },
        max_x: if a.max_x >= b.max_x {
            a.max_x
        } else {
            b.max_x
        },
        max_y: if a.max_y >= b.max_y {
            a.max_y
        } else {
            b.max_y
        },
    }
}

fn node_box(n: &Node) -> (b: BoundingBox)
    ensures
        b == node_bbox(*n),
{
    match n {
        Node::Leaf { bbox, .. } => *bbox,
        Node::Inner { bbox, .. } => *bbox,
    }
}

/// A leaf over `src[lo..hi]`, its box the fold of the run's boxes.
fn make_leaf(src: &Vec<IndexEntry>, lo: usize, hi: usize) -> (n: Node)
    requires
        lo < hi <= src@.len(),
        forall|i: int| 0 <= i < src@.len() ==> box_bounded((#[trigger] src@[i]).bbox),
    ensures
        node_wf(n),
        node_entries(n) == src@.subrange(lo as int, hi as int),
        node_bbox(n) == entries_bbox(src@.subrange(lo as int, hi as int)),
{
    let ghost sub = src@.subrange(lo as int, hi as int);
    let mut items: Vec<IndexEntry> = Vec::new();
    let mut b = src[lo].bbox;
    items.push(src[lo]);
    assert(items@ =~= sub.take(1));
    assert(sub.take(1).len() == 1 && b == entries_bbox(sub.take(1)));
    for j in (lo + 1)..hi
        invariant
            lo < hi <= src@.len(),
            sub == src@.subrange(lo as int, hi as int),
            items@ == sub.take(j - lo),
            b == entries_bbox(sub.take(j - lo)),
            forall|i: int| 0 <= i < src@.len() ==> box_bounded((#[trigger] src@[i]).bbox),
    {
        let e = src[j];
        items.push(e);
        let nb = union_exec(b, e.bbox);
        proof {
            let t = sub.take(j - lo + 1);
            assert(t.drop_last() =~= sub.take(j - lo));
            assert(t[t.len() - 1] == sub[j - lo] && sub[j - lo] == src@[j as int]);
            assert(items@ =~= t);
        }
        b = nb;
    }
    proof {
        assert(sub.take(hi - lo) =~= sub);
        lemma_entries_bbox_covers(sub);
        lemma_entries_bbox_bounded(sub);
        assert forall|i: int| 0 <= i < sub.len() implies box_bounded(
            (#[trigger] sub[i]).bbox,
        ) by {
            assert(sub[i] == src@[lo + i]);
        }
    }
    Node::Leaf { bbox: b, items }
}

/// Packs `src[lo..hi]` into a balanced subtree by halving.
fn build_node(src: &Vec<IndexEntry>, lo: usize, hi: usize) -> (n: Node)
    requires
        lo < hi <= src@.len(),
        forall|i: int| 0 <= i < src@.len() ==> box_bounded((#[trigger] src@[i]).bbox),
    ensures
        node_wf(n),
        node_entries(n) == src@.subrange(lo as int, hi as int),
    decreases hi - lo,
{
    if hi - lo <= LEAF_CAP {
        make_leaf(src, lo, hi)
    } else {
        let mid = lo + (hi - lo) / 2;
        let left = build_node(src, lo, mid);
        let right = build_node(src, mid, hi);
        let bbox = union_exec(node_box(&left), node_box(&right));
        proof {
            assert(src@.subrange(lo as int, mid as int) + src@.subrange(mid as int, hi as int)
                =~= src@.subrange(lo as int, hi as int));
        }
        Node::Inner { bbox, left: Box::new(left), right: Box::new(right) }
    }
}

/// The coarse index over a generation's entries.
pub struct BoundingBoxIndex {
    pub root: Option<Node>,
    pub count: usize,
}

/// The predicate of the coarse phase: the entry's box contains the point.
pub open spec fn cand_pred(p: Point) -> spec_fn(IndexEntry) -> bool {
    |e: IndexEntry| box_contains_pt(e.bbox, p)
}

impl BoundingBoxIndex {
    /// All indexed entries, in traversal order.
    pub open spec fn entries(self) -> Seq<IndexEntry> {
        match self.root {
            Some(n) => node_entries(n),
            None => Seq::empty(),
        }
    }

    /// The candidate list for a point: the entries whose box contains it,
    /// in traversal order.
    pub open spec fn candidates(self, p: Point) -> Seq<IndexEntry> {
        self.entries().filter(cand_pred(p))
    }

    pub open spec fn wf(self) -> bool {
        &&& match self.root {
            Some(n) => node_wf(n),
            None => true,
        }
        &&& self.count == self.entries().len()
    }

    pub fn new() -> (idx: Self)
        ensures
            idx.wf(),
            idx.entries() == Seq::<IndexEntry>::empty(),
    {
        BoundingBoxIndex { root: None, count: 0 }
    }

    /// Entry count, tracked incrementally.
    pub fn size(&self) -> (n: usize)
        requires
            self.wf(),
        ensures
            n == self.entries().len(),
    {
        self.count
    }

    /// One-pass balanced construction from a full entry set; the tree's
    /// traversal order is exactly the given order.
    pub fn bulk_build(entries: Vec<IndexEntry>) -> (idx: Self)
        requires
            forall|i: int| 0 <= i < entries@.len() ==> box_bounded((#[trigger] entries@[i]).bbox),
        ensures
            idx.wf(),
            idx.entries() == entries@,
    {
        let n = entries.len();
        if n == 0 {
            let idx = BoundingBoxIndex { root: None, count: 0 };
            assert(idx.entries() =~= entries@);
            idx
        } else {
            let root = build_node(&entries, 0, n);
            proof {
                assert(entries@.subrange(0, n as int) =~= entries@);
            }
            BoundingBoxIndex { root: Some(root), count: n }
        }
    }
}

proof fn lemma_filter_none(s: Seq<IndexEntry>, pred: spec_fn(IndexEntry) -> bool)
    requires
        forall|i: int| 0 <= i < s.len() ==> !pred(#[trigger] s[i]),
    ensures
        s.filter(pred) == Seq::<IndexEntry>::empty(),
    decreases s.len(),
{
    reveal(Seq::filter);
    if s.len() == 0 {
        assert(s.filter(pred) =~= Seq::<IndexEntry>::empty());
    } else {
        lemma_filter_none(s.drop_last(), pred);
        assert(!pred(s.last()));
        assert(s.filter(pred) =~= Seq::<IndexEntry>::empty());
    }
}

proof fn lemma_filter_one(x: IndexEntry, pred: spec_fn(IndexEntry) -> bool)
    ensures
        seq![x].filter(pred) == if pred(x) {
            seq![x]
        } else {
            Seq::<IndexEntry>::empty()
        },
{
    reveal(Seq::filter);
    let s = seq![x];
    assert(s.drop_last() =~= Seq::<IndexEntry>::empty());
    assert(Seq::<IndexEntry>::empty().filter(pred) =~= Seq::<IndexEntry>::empty());
    if pred(x) {
        assert(s.filter(pred) =~= seq![x]);
    } else {
        assert(s.filter(pred) =~= Seq::<IndexEntry>::empty());
    }
}

/// Elements of a filtered sequence come from the sequence.
pub proof fn lemma_filter_sub(s: Seq<IndexEntry>, pred: spec_fn(IndexEntry) -> bool)
    ensures
        forall|x: IndexEntry| #[trigger] s.filter(pred).contains(x) ==> s.contains(x),
    decreases s.len(),
{
    reveal(Seq::filter);
    if s.len() > 0 {
        lemma_filter_sub(s.drop_last(), pred);
        assert forall|x: IndexEntry| #[trigger] s.filter(pred).contains(x) implies s.contains(
            x,
        ) by {
            let f = s.filter(pred);
            let dl = s.drop_last().filter(pred);
            if pred(s.last()) {
                assert(f == dl.push(s.last()));
                let k = choose|k: int| 0 <= k < f.len() && f[k] == x;
                if k < dl.len() {
                    assert(dl.contains(x));
                    let j = choose|j: int| 0 <= j < s.drop_last().len() && s.drop_last()[j] == x;
                    assert(s[j] == x);
                } else {
                    assert(x == s.last());
                    assert(s[s.len() - 1] == x);
                }
            } else {
                assert(f == dl);
                assert(dl.contains(x));
                let j = choose|j: int| 0 <= j < s.drop_last().len() && s.drop_last()[j] == x;
                assert(s[j] == x);
            }
        }
    }
}

/// Tree descent: visits only children whose box contains the point, and
/// appends exactly the matching entries, in traversal order.
fn query_node(n: &Node, p: Point, out: &mut Vec<IndexEntry>)
    requires
        node_wf(*n),
    ensures
        final(out)@ == old(out)@ + node_entries(*n).filter(cand_pred(p)),
    decreases *n,
{
    let nb = node_box(n);
    if !(nb.min_x <= p.x && p.x <= nb.max_x && nb.min_y <= p.y && p.y <= nb.max_y) {
        proof {
            lemma_node_entries_covered(*n);
            lemma_filter_none(node_entries(*n), cand_pred(p));
            assert(out@ + node_entries(*n).filter(cand_pred(p)) =~= out@);
        }
        return ;
    }
    match n {
        Node::Leaf { items, .. } => {
            let m = items.len();
            for i in 0..m
                invariant
                    m == items@.len(),
                    out@ == old(out)@ + items@.take(i as int).filter(cand_pred(p)),
            {
                let e = items[i];
                proof {
                    assert(items@.take(i + 1) =~= items@.take(i as int) + seq![e]);
                    lemma_filter_one(e, cand_pred(p));
                    assert((items@.take(i as int) + seq![e]).filter(cand_pred(p))
                        == items@.take(i as int).filter(cand_pred(p)) + seq![e].filter(
                        cand_pred(p),
                    ));
                }
                if e.bbox.min_x <= p.x && p.x <= e.bbox.max_x && e.bbox.min_y <= p.y && p.y
                    <= e.bbox.max_y {
                    out.push(e);
                    proof {
                        assert(out@ =~= old(out)@ + items@.take(i + 1).filter(cand_pred(p)));
                    }
                } else {
                    proof {
                        assert(out@ =~= old(out)@ + items@.take(i + 1).filter(cand_pred(p)));
                    }
                }
            }
            proof {
                assert(items@.take(m as int) =~= items@);
            }
        },
        Node::Inner { left, right, .. } => {
            query_node(&**left, p, out);
            query_node(&**right, p, out);
            proof {
                let fl = node_entries(**left).filter(cand_pred(p));
                let fr = node_entries(**right).filter(cand_pred(p));
                assert((node_entries(**left) + node_entries(**right)).filter(cand_pred(p)) == fl
                    + fr);
                assert(old(out)@ + fl + fr =~= old(out)@ + (fl + fr));
            }
        },
    }
}

impl BoundingBoxIndex {
    /// The coarse phase: all entries whose bounding box contains the point,
    /// in traversal order.
    pub fn query_candidates(&self, p: Point) -> (res: Vec<IndexEntry>)
        requires
            self.wf(),
        ensures
            res@ == self.candidates(p),
    {
        let mut out: Vec<IndexEntry> = Vec::new();
        match &self.root {
            Some(n) => {
                query_node(n, p, &mut out);
                assert(out@ =~= self.candidates(p));
            },
            None => {
                proof {
                    lemma_filter_none(self.entries(), cand_pred(p));
                }
                assert(out@ =~= self.candidates(p));
            },
        }
        out
    }
}

/// Concatenation adds entry multisets.
proof fn lemma_concat_multiset(a: Seq<IndexEntry>, b: Seq<IndexEntry>)
    ensures
        (a + b).to_multiset() == a.to_multiset().add(b.to_multiset()),
    decreases b.len(),
{
    if b.len() == 0 {
        assert(a + b =~= a);
        assert(b.to_multiset() =~= Multiset::<IndexEntry>::empty());
        assert(a.to_multiset().add(b.to_multiset()) =~= a.to_multiset());
    } else {
        lemma_concat_multiset(a, b.drop_last());
        assert(a + b =~= (a + b.drop_last()).push(b.last()));
        assert(b =~= b.drop_last().push(b.last()));
        assert((a + b.drop_last()).push(b.last()).to_multiset() == (a
            + b.drop_last()).to_multiset().insert(b.last()));
        assert(b.drop_last().push(b.last()).to_multiset() == b.drop_last().to_multiset().insert(
            b.last(),
        ));
        assert((a + b).to_multiset() =~= a.to_multiset().add(b.to_multiset()));
    }
}

/// Least-enlargement choice between the two children: how much the child's
/// box must grow, by area on the fixed-point grid.
fn enlargement(b: BoundingBox, eb: BoundingBox) -> (d: i128)
    requires
        box_bounded(b),
        box_bounded(eb),
{
    let u = union_exec(b, eb);
    let w0: i128 = b.max_x as i128 - b.min_x as i128;
    let h0: i128 = b.max_y as i128 - b.min_y as i128;
    let w1: i128 = u.max_x as i128 - u.min_x as i128;
    let h1: i128 = u.max_y as i128 - u.min_y as i128;
    assert(-2000000000 <= w0 <= 2000000000 && -2000000000 <= h0 <= 2000000000);
    assert(-2000000000 <= w1 <= 2000000000 && -2000000000 <= h1 <= 2000000000);
    assert(-4000000000000000000 <= w0 * h0 <= 4000000000000000000) by (nonlinear_arith)
        requires
            -2000000000 <= w0 <= 2000000000,
            -2000000000 <= h0 <= 2000000000,
    ;
    assert(-4000000000000000000 <= w1 * h1 <= 4000000000000000000) by (nonlinear_arith)
        requires
            -2000000000 <= w1 <= 2000000000,
            -2000000000 <= h1 <= 2000000000,
    ;
    w1 * h1 - w0 * h0
}

/// Insertion into a subtree: descends the child needing least enlargement,
/// splits an overflowing leaf in half, grows the box by the new entry.
fn insert_node(n: Node, e: IndexEntry) -> (r: Node)
    requires
        node_wf(n),
        box_bounded(e.bbox),
    ensures
        node_wf(r),
        node_bbox(r) == box_union(node_bbox(n), e.bbox),
        node_entries(r).to_multiset() == node_entries(n).to_multiset().insert(e),
    decreases n,
{
    match n {
        Node::Leaf { bbox, mut items } => {
            let ghost old_items = items@;
            items.push(e);
            let nb = union_exec(bbox, e.bbox);
            if items.len() <= LEAF_MAX {
                Node::Leaf { bbox: nb, items }
            } else {
                let h = items.len() / 2;
                let left = make_leaf(&items, 0, h);
                let right = make_leaf(&items, h, items.len());
                proof {
                    let la = items@.subrange(0, h as int);
                    let ra = items@.subrange(h as int, items@.len() as int);
                    assert(la + ra =~= items@);
                    lemma_concat_multiset(la, ra);
                    assert((la + ra).to_multiset() =~= old_items.push(e).to_multiset());
                    assert forall|i: int| 0 <= i < la.len() implies box_in_box(
                        (#[trigger] la[i]).bbox,
                        nb,
                    ) by {
                        assert(la[i] == items@[i]);
                    }
                    assert forall|i: int| 0 <= i < ra.len() implies box_in_box(
                        (#[trigger] ra[i]).bbox,
                        nb,
                    ) by {
                        assert(ra[i] == items@[h + i]);
                    }
                    lemma_entries_bbox_least(la, nb);
                    lemma_entries_bbox_least(ra, nb);
                }
                Node::Inner { bbox: nb, left: Box::new(left), right: Box::new(right) }
            }
        },
        Node::Inner { bbox, left, right } => {
            let nb = union_exec(bbox, e.bbox);
            proof {
                lemma_node_bbox_bounded(*left);
                lemma_node_bbox_bounded(*right);
            }
            let el = enlargement(node_box(&left), e.bbox);
            let er = enlargement(node_box(&right), e.bbox);
            if el <= er {
                let ghost rm = node_entries(*right).to_multiset();
                let nl = insert_node(*left, e);
                proof {
                    lemma_concat_multiset(node_entries(nl), node_entries(*right));
                    lemma_concat_multiset(node_entries(*left), node_entries(*right));
                    assert(node_entries(nl).to_multiset().add(rm) =~= node_entries(*left)
                        .to_multiset().add(rm).insert(e));
                }
                Node::Inner { bbox: nb, left: Box::new(nl), right }
            } else {
                let nr = insert_node(*right, e);
                proof {
                    lemma_concat_multiset(node_entries(*left), node_entries(nr));
                    lemma_concat_multiset(node_entries(*left), node_entries(*right));
                    assert(node_entries(*left).to_multiset().add(
                        node_entries(nr).to_multiset(),
                    ) =~= node_entries(*left).to_multiset().add(
                        node_entries(*right).to_multiset(),
                    ).insert(e));
                }
                Node::Inner { bbox: nb, left, right: Box::new(nr) }
            }
        },
    }
}

impl BoundingBoxIndex {
    /// Adds one entry without rebuilding: the indexed set grows by exactly
    /// that entry.
    pub fn insert(&mut self, e: IndexEntry) -> (r: ())
        requires
            old(self).wf(),
            box_bounded(e.bbox),
            old(self).count < usize::MAX,
        ensures
            final(self).wf(),
            final(self).entries().to_multiset() == old(self).entries().to_multiset().insert(e),
            final(self).entries().len() == old(self).entries().len() + 1,
    {
        let root_opt = self.root.take();
        match root_opt {
            None => {
                let mut items: Vec<IndexEntry> = Vec::new();
                items.push(e);
                proof {
                    assert(items@ =~= Seq::<IndexEntry>::empty().push(e));
                }
                self.root = Some(Node::Leaf { bbox: e.bbox, items });
                self.count = self.count + 1;
                proof {
                    assert(old(self).entries() =~= Seq::<IndexEntry>::empty());
                    assert(self.entries() == Seq::<IndexEntry>::empty().push(e));
                    assert(self.entries().to_multiset() =~= old(
                        self,
                    ).entries().to_multiset().insert(e));
                    assert(old(self).count == old(self).entries().len());
                    assert(old(self).entries().len() == 0);
                    assert(self.entries().len() == 1);
                    assert(self.count == 1);
                }
            },
            Some(root) => {
                let nr = insert_node(root, e);
                self.root = Some(nr);
                self.count = self.count + 1;
                proof {
                    assert(node_entries(nr).len() == node_entries(nr).to_multiset().len());
                    assert(node_entries(root).len() == node_entries(root).to_multiset().len());
                    assert(node_entries(nr).to_multiset().len() == node_entries(
                        root,
                    ).to_multiset().len() + 1);
                }
            },
        }
    }
}

} // verus!
