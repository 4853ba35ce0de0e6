//! The treemap of a whole tree: one box for each file, nested by directory.
use vstd::prelude::*;
use crate::geometry::Rect;
use crate::metric::seq_sum;
use crate::scanning::{Node, sum_sizes};
use crate::squarify::{
    greedy_end, grow_from, item_rect, long_spec, offset, row_rects, short_spec, squarify,
    squarify_from, sum_areas, thickness,
};

verus! {

/// The place of one file in the map: its path and size, its rectangle, and
/// the rectangle of the directory that holds it, if any.
pub struct FileBox {
    pub path: String,
    pub size: u64,
    pub rect: Rect,
    pub parent: Option<Rect>,
}

/// The files beneath `n`, depth first, in the order of the children.
pub open spec fn leaves(n: Node) -> Seq<Node>
    decreases n,
{
    match n.children {
        None => seq![n],
        Some(cs) => leaves_of(cs@),
    }
}

/// The files beneath each node of `s`, one node after the other.
pub open spec fn leaves_of(s: Seq<Node>) -> Seq<Node>
    decreases s,
{
    if s.len() == 0 {
        Seq::empty()
    } else {
        leaves_of(s.drop_last()) + leaves(s.last())
    }
}

/// The sizes of a sequence of nodes.
pub open spec fn sizes_of(s: Seq<Node>) -> Seq<u64> {
    s.map_values(|n: Node| n.size)
}

/// The boxes of the tree `n` laid out in `bounds`, `parent` being the
/// rectangle recorded for a file that stands alone.
pub open spec fn layout_spec(n: Node, bounds: Rect, parent: Option<Rect>) -> Seq<FileBox>
    decreases n,
{
    match n.children {
        None => seq![FileBox { path: n.path, size: n.size, rect: bounds, parent }],
        Some(cs) => layout_children(
            cs@,
            squarify_from(sizes_of(cs@), 0, bounds, sum_sizes(cs@)),
            bounds,
        ),
    }
}

/// The boxes of each node of `s` laid out in its rectangle of `rects`,
/// inside the directory rectangle `bounds`.
pub open spec fn layout_children(s: Seq<Node>, rects: Seq<Rect>, bounds: Rect) -> Seq<FileBox>
    decreases s,
{
    if s.len() == 0 {
        Seq::empty()
    } else {
        layout_children(s.drop_last(), rects, bounds) + layout_spec(
            s.last(),
            rects[s.len() - 1],
            Some(bounds),
        )
    }
}

/// Sum of the areas of the boxes' rectangles.
pub open spec fn sum_box_areas(bs: Seq<FileBox>) -> int
    decreases bs.len(),
{
    if bs.len() == 0 {
        0
    } else {
        sum_box_areas(bs.drop_last()) + bs.last().rect.area_spec()
    }
}

/// `bs` is a map of the tree `root` inside `bounds`: one box per file, in
/// order, with the file's path and size; every rectangle inside `bounds`
/// and inside the recorded parent rectangle; no two boxes sharing area. A
/// file on its own fills `bounds` and keeps the given parent.
pub open spec fn maps_tree(bs: Seq<FileBox>, root: Node, bounds: Rect, parent: Option<Rect>) -> bool {
    let ls = leaves(root);
    &&& bs.len() == ls.len()
    &&& forall|i: int|
        0 <= i < bs.len() ==> {
            let b = #[trigger] bs[i];
            &&& b.path@ == ls[i].path@
            &&& b.size == ls[i].size
            &&& b.rect.wf()
            &&& bounds.contains(b.rect)
            &&& root.children is Some ==> (b.parent matches Some(p) && bounds.contains(p)
                && p.contains(b.rect))
        }
    &&& forall|i: int, j: int|
        0 <= i < bs.len() && 0 <= j < bs.len() && i != j ==> (#[trigger] bs[i]).rect.disjoint(
            (#[trigger] bs[j]).rect,
        )
    &&& root.children is None ==> bs[0].rect == bounds && bs[0].parent == parent
}

pub proof fn lemma_sum_box_areas_concat(a: Seq<FileBox>, b: Seq<FileBox>)
    ensures
        sum_box_areas(a + b) == sum_box_areas(a) + sum_box_areas(b),
    decreases b.len(),
{
    if b.len() == 0 {
        assert(a + b == a);
    } else {
        lemma_sum_box_areas_concat(a, b.drop_last());
        assert((a + b).drop_last() == a + b.drop_last());
    }
}

/// A well-formed tree of weight zero holds no file.
pub proof fn lemma_weightless_no_leaves(n: Node)
    requires
        n.wf(),
        n.size == 0,
    ensures
        leaves(n).len() == 0,
    decreases n,
{
    if let Some(cs) = n.children {
        lemma_weightless_seq(cs@);
    }
}

proof fn lemma_weightless_seq(s: Seq<Node>)
    requires
        sum_sizes(s) == 0,
        forall|i: int| 0 <= i < s.len() ==> (#[trigger] s[i]).wf(),
    ensures
        leaves_of(s).len() == 0,
    decreases s,
{
    if s.len() > 0 {
        lemma_sum_sizes_nonneg(s.drop_last());
        assert(s.drop_last().len() < s.len());
        assert(forall|i: int| 0 <= i < s.drop_last().len() ==> s.drop_last()[i] == s[i]);
        lemma_weightless_seq(s.drop_last());
        assert(s.last() == s[s.len() - 1]);
        lemma_weightless_no_leaves(s.last());
    }
}

pub proof fn lemma_sum_sizes_nonneg(s: Seq<Node>)
    ensures
        sum_sizes(s) >= 0,
    decreases s.len(),
{
    if s.len() > 0 {
        lemma_sum_sizes_nonneg(s.drop_last());
    }
}

/// The boxes of a treemap, as laid out most recently.
pub struct Boxes {
    pub boxes: Vec<FileBox>,
}

/// The sizes of a sequence of nodes, in order.
fn child_sizes(cs: &Vec<Node>) -> (r: Vec<u64>)
    ensures
        r@.len() == cs@.len(),
        forall|i: int| 0 <= i < cs@.len() ==> r@[i] == (#[trigger] cs@[i]).size,
        seq_sum(r@) == sum_sizes(cs@),
{
    let mut r: Vec<u64> = Vec::new();
    let mut i: usize = 0;
    while i < cs.len()
        invariant
            i <= cs@.len(),
            r@.len() == i,
            forall|j: int| 0 <= j < i ==> r@[j] == (#[trigger] cs@[j]).size,
            seq_sum(r@) == sum_sizes(cs@.take(i as int)),
        decreases cs@.len() - i,
    {
        let ghost before = r@;
        r.push(cs[i].size);
        assert(r@.drop_last() == before);
        assert(cs@.take(i as int + 1).drop_last() == cs@.take(i as int));
        i = i + 1;
    }
    assert(cs@.take(i as int) == cs@);
    r
}

impl Boxes {
    pub fn new() -> (r: Boxes)
        ensures
            r.boxes@.len() == 0,
    {
        Boxes { boxes: Vec::new() }
    }

    /// Appends the boxes of the tree `root` laid out in `bounds`: a file
    /// fills `bounds`; a directory shares `bounds` among its children by
    /// the squarified layout and lays each child out in its share, with
    /// `bounds` as the parent rectangle of the files directly inside it.
    pub fn layout_node(&mut self, root: &Node, bounds: Rect, parent: Option<Rect>)
        requires
            root.wf(),
            bounds.wf(),
        ensures
            final(self).boxes@.len() >= old(self).boxes@.len(),
            final(self).boxes@.take(old(self).boxes@.len() as int) == old(self).boxes@,
            maps_tree(final(self).boxes@.skip(old(self).boxes@.len() as int), *root, bounds, parent),
            root.size > 0 ==> sum_box_areas(final(self).boxes@.skip(old(self).boxes@.len() as int))
                == bounds.area_spec(),
            final(self).boxes@.skip(old(self).boxes@.len() as int) == layout_spec(*root, bounds, parent),
        decreases root,
    {
        let ghost base = self.boxes@.len();
        let ghost old_boxes = self.boxes@;
        match &root.children {
            None => {
                self.boxes.push(FileBox { path: root.path.clone(), size: root.size, rect: bounds, parent });
                proof {
                    let seg = self.boxes@.skip(base as int);
                    assert(seg.len() == 1);
                    assert(seg[0] == self.boxes@[base as int]);
                    assert(self.boxes@.take(base as int) == old_boxes);
                    assert(seg.drop_last().len() == 0);
                    assert(seg.last() == seg[0]);
                    assert(sum_box_areas(seg.drop_last()) == 0);
                    assert(sum_box_areas(seg) == bounds.area_spec());
                    assert(seg =~= layout_spec(*root, bounds, parent));
                }
            },
            Some(cs) => {
                let sizes = child_sizes(cs);
                let rects = squarify(sizes.as_slice(), bounds);
                assert(sizes@ =~= sizes_of(cs@));
                let mut k: usize = 0;
                while k < cs.len()
                    invariant
                        root.wf(),
                        root.children == Some(*cs),
                        bounds.wf(),
                        k <= cs@.len(),
                        rects@.len() == cs@.len(),
                        rects@ == squarify_from(sizes_of(cs@), 0, bounds, sum_sizes(cs@)),
                        self.boxes@.skip(base as int) == layout_children(cs@.take(k as int), rects@, bounds),
                        root.size > 0 ==> sum_areas(rects@) == bounds.area_spec(),
                        sizes@.len() == cs@.len(),
                        forall|i: int| 0 <= i < cs@.len() ==> sizes@[i] == (#[trigger] cs@[i]).size,
                        forall|i: int|
                            0 <= i < rects@.len() ==> (#[trigger] rects@[i]).wf() && bounds.contains(
                                rects@[i],
                            ),
                        forall|i: int|
                            0 <= i < rects@.len() && sizes@[i] == 0 ==> (
                            #[trigger] rects@[i]).area_spec() == 0,
                        forall|i: int, j: int|
                            0 <= i < rects@.len() && 0 <= j < rects@.len() && i != j ==> (
                            #[trigger] rects@[i]).disjoint(#[trigger] rects@[j]),
                        self.boxes@.len() >= base,
                        self.boxes@.take(base as int) == old_boxes,
                        ({
                            let seg = self.boxes@.skip(base as int);
                            let lk = leaves_of(cs@.take(k as int));
                            &&& seg.len() == lk.len()
                            &&& forall|i: int|
                                0 <= i < seg.len() ==> {
                                    let b = #[trigger] seg[i];
                                    &&& b.path@ == lk[i].path@
                                    &&& b.size == lk[i].size
                                    &&& b.rect.wf()
                                    &&& bounds.contains(b.rect)
                                    &&& b.parent matches Some(p) && bounds.contains(p)
                                        && p.contains(b.rect)
                                    &&& exists|a: int|
                                        0 <= a < k && #[trigger] rects@[a].contains(b.rect)
                                }
                            &&& forall|i: int, j: int|
                                0 <= i < seg.len() && 0 <= j < seg.len() && i != j ==> (
                                #[trigger] seg[i]).rect.disjoint((#[trigger] seg[j]).rect)
                            &&& sum_box_areas(seg) == sum_areas(rects@.take(k as int))
                        }),
                    decreases cs@.len() - k,
                {
                    let ghost before = self.boxes@;
                    let ghost m = self.boxes@.len();
                    assert(cs@[k as int].wf());
                    self.layout_node(&cs[k], rects[k], Some(bounds));
                    proof {
                        let ck = cs@[k as int];
                        let seg0 = before.skip(base as int);
                        let segk = self.boxes@.skip(m as int);
                        let seg = self.boxes@.skip(base as int);
                        assert(seg == seg0 + segk) by {
                            assert(self.boxes@.take(m as int) == before);
                            assert(seg =~= seg0 + segk);
                        }
                        assert(self.boxes@.take(base as int) == old_boxes) by {
                            assert(self.boxes@.take(base as int) =~= before.take(base as int));
                        }
                        let lk = leaves_of(cs@.take(k as int));
                        assert(cs@.take(k as int + 1).drop_last() == cs@.take(k as int));
                        assert(cs@.take(k as int + 1).last() == ck);
                        assert(leaves_of(cs@.take(k as int + 1)) == lk + leaves(ck));
                        let r = rects@[k as int];
                        assert forall|i: int| 0 <= i < seg.len() implies {
                            let b = #[trigger] seg[i];
                            &&& b.path@ == (lk + leaves(ck))[i].path@
                            &&& b.size == (lk + leaves(ck))[i].size
                            &&& b.rect.wf()
                            &&& bounds.contains(b.rect)
                            &&& b.parent matches Some(p) && bounds.contains(p) && p.contains(b.rect)
                            &&& exists|a: int| 0 <= a < k + 1 && #[trigger] rects@[a].contains(b.rect)
                        } by {
                            if i < seg0.len() {
                                assert(seg[i] == seg0[i]);
                            } else {
                                let b = segk[i - seg0.len()];
                                assert(seg[i] == b);
                                assert(rects@[k as int].contains(b.rect));
                            }
                        }
                        assert forall|i: int, j: int|
                            0 <= i < seg.len() && 0 <= j < seg.len() && i != j implies (
                            #[trigger] seg[i]).rect.disjoint((#[trigger] seg[j]).rect) by {
                            if i < seg0.len() && j < seg0.len() {
                                assert(seg[i] == seg0[i]);
                                assert(seg[j] == seg0[j]);
                            } else if i >= seg0.len() && j >= seg0.len() {
                                assert(seg[i] == segk[i - seg0.len()]);
                                assert(seg[j] == segk[j - seg0.len()]);
                            } else if i < seg0.len() {
                                let bi = seg0[i];
                                assert(seg[i] == bi);
                                assert(seg[j] == segk[j - seg0.len()]);
                                let a = choose|a: int| 0 <= a < k && #[trigger] rects@[a].contains(bi.rect);
                                assert(rects@[a].disjoint(rects@[k as int]));
                            } else {
                                let bj = seg0[j];
                                assert(seg[j] == bj);
                                assert(seg[i] == segk[i - seg0.len()]);
                                let a = choose|a: int| 0 <= a < k && #[trigger] rects@[a].contains(bj.rect);
                                assert(rects@[a].disjoint(rects@[k as int]));
                            }
                        }
                        lemma_sum_box_areas_concat(seg0, segk);
                        assert(layout_children(cs@.take(k as int + 1), rects@, bounds) == layout_children(
                            cs@.take(k as int),
                            rects@,
                            bounds,
                        ) + layout_spec(ck, rects@[k as int], Some(bounds)));
                        assert(rects@.take(k as int + 1).drop_last() == rects@.take(k as int));
                        if ck.size == 0 {
                            lemma_weightless_no_leaves(ck);
                            assert(segk.len() == 0);
                            assert(sum_box_areas(segk) == 0);
                        }
                    }
                    k = k + 1;
                }
                proof {
                    assert(cs@.take(k as int) == cs@);
                    assert(rects@.take(k as int) == rects@);
                    assert(root.size > 0 ==> sum_box_areas(self.boxes@.skip(base as int))
                        == bounds.area_spec());
                    assert(self.boxes@.skip(base as int) == layout_spec(*root, bounds, parent));
                }
            },
        }
    }
}

/// Laying out the same tree in the same rectangle twice gives the same boxes.
pub proof fn lemma_layout_deterministic(root: Node, bounds: Rect, a: Seq<FileBox>, b: Seq<FileBox>)
    requires
        a == layout_spec(root, bounds, None),
        b == layout_spec(root, bounds, None),
    ensures
        a == b,
{
}

/// A directory holding a single file maps that file onto the whole of
/// `bounds`.
pub proof fn lemma_single_leaf(root: Node, bounds: Rect)
    requires
        root.wf(),
        bounds.wf(),
        root.children matches Some(cs) && cs@.len() == 1 && cs@[0].children is None,
    ensures
        layout_spec(root, bounds, None).len() == 1,
        layout_spec(root, bounds, None)[0].rect == bounds,
        layout_spec(root, bounds, None)[0].path == root.children->Some_0@[0].path,
{
    let cs = root.children->Some_0;
    let c = cs@[0];
    assert(c.wf());
    let sz = sizes_of(cs@);
    let sz_total = c.size as int;
    assert(cs@.drop_last().len() == 0);
    assert(sum_sizes(cs@.drop_last()) == 0);
    assert(cs@.last() == c);
    assert(sum_sizes(cs@) == sz_total);
    assert(sz[0] == c.size);
    assert(sz.subrange(0, 1) =~= seq![c.size]);
    assert(seq![c.size].drop_last().len() == 0);
    assert(crate::metric::seq_sum(seq![c.size].drop_last()) == 0);
    assert(seq![c.size].last() == c.size);
    assert(crate::metric::seq_sum(sz.subrange(0, 1)) == sz_total);
    assert(sz.subrange(0, 0).len() == 0);
    let len = short_spec(bounds);
    assert(grow_from(sz, 0, 1, len) == 1);
    assert(greedy_end(sz, 0, len) == 1);
    let long = long_spec(bounds);
    vstd::arithmetic::div_mod::lemma_div_multiples_vanish(long, sz_total);
    vstd::arithmetic::div_mod::lemma_div_multiples_vanish(len, sz_total);
    assert(thickness(sz_total, long, sz_total) == long);
    assert(offset(sz_total, len, sz_total) == len);
    assert(offset(0, len, sz_total) == 0);
    let rects = squarify_from(sz, 0, bounds, sz_total);
    let t = thickness(sz_total, long, sz_total);
    let rr = row_rects(sz, 0, 1, bounds, sz_total);
    assert(rr[0] == item_rect(bounds, t, 0, len));
    assert(item_rect(bounds, t, 0, len) == bounds);
    let tail = squarify_from(sz, 1, crate::squarify::rest_rect(bounds, t), 0);
    assert(greedy_end(sz, 1, short_spec(crate::squarify::rest_rect(bounds, t))) == 2);
    assert(tail.len() == 0);
    assert(rects == rr + tail);
    assert(rects[0] == bounds);
    assert(cs@.last() == c);
    assert(layout_children(cs@.drop_last(), rects, bounds).len() == 0);
    let lc = layout_spec(c, rects[0], Some(bounds));
    assert(lc.len() == 1 && lc[0].rect == bounds && lc[0].path == c.path);
    assert(layout_children(cs@, rects, bounds) == layout_children(cs@.drop_last(), rects, bounds) + lc);
    assert(layout_children(cs@, rects, bounds) =~= lc);
    assert(layout_spec(root, bounds, None) == layout_children(cs@, rects, bounds));
}

/// The treemap of `root` in `bounds`: one box per file beneath `root`.
pub fn layout(root: &Node, bounds: Rect) -> (r: Vec<FileBox>)
    requires
        root.wf(),
        bounds.wf(),
    ensures
        r@ == layout_spec(*root, bounds, None),
        maps_tree(r@, *root, bounds, None),
        root.size > 0 ==> sum_box_areas(r@) == bounds.area_spec(),
{
    let mut b = Boxes::new();
    b.layout_node(root, bounds, None);
    proof {
        assert(b.boxes@.skip(0) == b.boxes@);
    }
    b.boxes
}

} // verus!
