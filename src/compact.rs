use vstd::prelude::*;
use crate::arena::{Node, ShapeKind};
use crate::scene::ElementManager;

verus! {

/// One instanced draw: the batch slots of same-shape elements at one depth.
#[derive(Debug)]
pub enum DrawRequestedElements {
    Img(Vec<u64>),
    Box(Vec<u64>),
}

impl DrawRequestedElements {
    /// The shape drawn and the slots drawn, in order.
    pub open spec fn entry(&self) -> (ShapeKind, Seq<u64>) {
        match self {
            DrawRequestedElements::Img(v) => (ShapeKind::Image, v@),
            DrawRequestedElements::Box(v) => (ShapeKind::Box, v@),
        }
    }
}

/// The children of the live elements of `level`, in order: the next level.
pub open spec fn children_level(nodes: Map<u64, Node>, level: Seq<u64>) -> Seq<u64>
    decreases level.len(),
{
    if level.len() == 0 {
        Seq::empty()
    } else {
        children_level(nodes, level.drop_last()) + if nodes.contains_key(level.last()) {
            nodes[level.last()].children@
        } else {
            Seq::empty()
        }
    }
}

/// The elements at depth `d`, in discovery order: the roots, then the
/// children of each level in turn.
pub open spec fn level_keys(s: ElementManager, d: nat) -> Seq<u64>
    decreases d,
{
    if d == 0 {
        s.root_keys()
    } else {
        children_level(s.nodes(), level_keys(s, (d - 1) as nat))
    }
}

/// The slots of the live `kind` elements of `level`, in order.
pub open spec fn kind_slots(nodes: Map<u64, Node>, level: Seq<u64>, kind: ShapeKind) -> Seq<u64>
    decreases level.len(),
{
    if level.len() == 0 {
        Seq::empty()
    } else {
        kind_slots(nodes, level.drop_last(), kind) + if nodes.contains_key(level.last())
            && nodes[level.last()].kind == kind {
            seq![nodes[level.last()].slot]
        } else {
            Seq::empty()
        }
    }
}

/// The draws of one level: its images, then its boxes, each when present.
pub open spec fn level_entries(nodes: Map<u64, Node>, level: Seq<u64>) -> Seq<
    (ShapeKind, Seq<u64>),
> {
    let imgs = kind_slots(nodes, level, ShapeKind::Image);
    let boxes = kind_slots(nodes, level, ShapeKind::Box);
    (if imgs.len() > 0 {
        seq![(ShapeKind::Image, imgs)]
    } else {
        Seq::empty()
    }) + (if boxes.len() > 0 {
        seq![(ShapeKind::Box, boxes)]
    } else {
        Seq::empty()
    })
}

/// The draws of the levels above depth `d`, shallowest first.
pub open spec fn entries_upto(s: ElementManager, d: nat) -> Seq<(ShapeKind, Seq<u64>)>
    decreases d,
{
    if d == 0 {
        Seq::empty()
    } else {
        entries_upto(s, (d - 1) as nat) + level_entries(s.nodes(), level_keys(s, (d - 1) as nat))
    }
}

/// The compacted draw order of the whole tree. Every element sits at a depth
/// below `next_stamp`, since a child is created after its parent.
pub open spec fn draw_order(s: ElementManager) -> Seq<(ShapeKind, Seq<u64>)> {
    entries_upto(s, s.next_stamp())
}

proof fn lemma_empty_levels_stay_empty(s: ElementManager, d: nat, e: nat)
    requires
        level_keys(s, d).len() == 0,
        d <= e,
    ensures
        level_keys(s, e).len() == 0,
        entries_upto(s, e) == entries_upto(s, d),
    decreases e - d,
{
    if d < e {
        lemma_empty_levels_stay_empty(s, d, (e - 1) as nat);
        let l = level_keys(s, (e - 1) as nat);
        assert(kind_slots(s.nodes(), l, ShapeKind::Image) =~= Seq::<u64>::empty());
        assert(kind_slots(s.nodes(), l, ShapeKind::Box) =~= Seq::<u64>::empty());
        assert(level_entries(s.nodes(), l) =~= Seq::empty());
        assert(entries_upto(s, e) =~= entries_upto(s, (e - 1) as nat));
    }
}

proof fn lemma_children_level_members(s: ElementManager, l: Seq<u64>, d: nat)
    requires
        s.wf(),
        forall|j: int| 0 <= j < l.len() ==> s.is_live(#[trigger] l[j]) && s.stamps()[l[j]] >= d,
    ensures
        forall|j: int|
            0 <= j < children_level(s.nodes(), l).len() ==> s.is_live(
                #[trigger] children_level(s.nodes(), l)[j],
            ) && s.stamps()[children_level(s.nodes(), l)[j]] >= d + 1,
    decreases l.len(),
{
    if l.len() > 0 {
        let f = l.drop_last();
        assert forall|j: int| 0 <= j < f.len() implies s.is_live(#[trigger] f[j]) && s.stamps()[f[j]]
            >= d by {
            assert(f[j] == l[j]);
        }
        lemma_children_level_members(s, f, d);
        s.lemma_children_later();
        let front = children_level(s.nodes(), f);
        let k = l.last();
        assert(s.is_live(l[l.len() - 1]));
        let cs = s.nodes()[k].children@;
        let all = children_level(s.nodes(), l);
        assert(all == front + cs);
        assert forall|j: int| 0 <= j < all.len() implies s.is_live(#[trigger] all[j]) && s.stamps()[all[j]]
            >= d + 1 by {
            if j < front.len() {
                assert(all[j] == front[j]);
            } else {
                assert(all[j] == cs[j - front.len()]);
                assert(s.nodes()[k].children@[j - front.len()] == cs[j - front.len()]);
            }
        }
    }
}

/// The elements at depth `d` are live and were created at least `d` steps
/// after the first element.
pub proof fn lemma_level_members(s: ElementManager, d: nat)
    requires
        s.wf(),
    ensures
        forall|j: int|
            0 <= j < level_keys(s, d).len() ==> s.is_live(#[trigger] level_keys(s, d)[j])
                && s.stamps()[level_keys(s, d)[j]] >= d,
    decreases d,
{
    if d == 0 {
        assert forall|j: int| 0 <= j < level_keys(s, 0).len() implies s.is_live(
            #[trigger] level_keys(s, 0)[j],
        ) by {
            assert(level_keys(s, 0)[j] == s.root_keys()[j]);
        }
    } else {
        lemma_level_members(s, (d - 1) as nat);
        lemma_children_level_members(s, level_keys(s, (d - 1) as nat), (d - 1) as nat);
    }
}

/// Once the tree has no element at depth `d`, the draw order is the draws of
/// the levels above `d`.
#[verifier::rlimit(40)]
pub proof fn lemma_draw_order_upto(s: ElementManager, d: nat)
    requires
        s.wf(),
        level_keys(s, d).len() == 0,
    ensures
        draw_order(s) == entries_upto(s, d),
{
    let n = s.next_stamp();
    if d <= n {
        lemma_empty_levels_stay_empty(s, d, n);
    } else {
        lemma_level_members(s, n);
        if level_keys(s, n).len() > 0 {
            assert(s.stamps()[level_keys(s, n)[0]] >= n);
        }
        lemma_empty_levels_stay_empty(s, n, d);
    }
}

/// Appends the keys of `src` to `out`.
pub fn append_keys(out: &mut Vec<u64>, src: &Vec<u64>)
    ensures
        final(out)@ == old(out)@ + src@,
{
    let mut i: usize = 0;
    while i < src.len()
        invariant
            i <= src@.len(),
            out@ == old(out)@ + src@.subrange(0, i as int),
        decreases src@.len() - i,
    {
        out.push(src[i]);
        proof {
            assert(src@.subrange(0, i as int + 1) =~= src@.subrange(0, i as int).push(src@[i as int]));
        }
        i = i + 1;
    }
    assert(src@.subrange(0, src@.len() as int) =~= src@);
}

impl ElementManager {
    /// The image slots, box slots and children of the elements of one level.
    #[verifier::rlimit(40)]
    fn scan_level(&self, level: &Vec<u64>, depth: Ghost<nat>) -> (r: (Vec<u64>, Vec<u64>, Vec<u64>))
        requires
            crate::arena::contents_wf(self.nodes()),
            self.children_later(),
            forall|j: int|
                0 <= j < level@.len() ==> self.is_live(#[trigger] level@[j])
                    && self.stamps()[level@[j]] >= depth@,
        ensures
            r.0@ == kind_slots(self.nodes(), level@, ShapeKind::Image),
            r.1@ == kind_slots(self.nodes(), level@, ShapeKind::Box),
            r.2@ == children_level(self.nodes(), level@),
            forall|j: int|
                0 <= j < r.2@.len() ==> self.is_live(#[trigger] r.2@[j])
                    && self.stamps()[r.2@[j]] >= depth@ + 1,
    {
        let ghost depth = depth@;
        let mut imgs: Vec<u64> = Vec::new();
        let mut boxes: Vec<u64> = Vec::new();
        let mut next: Vec<u64> = Vec::new();
        let mut i: usize = 0;
        while i < level.len()
            invariant
                crate::arena::contents_wf(self.nodes()),
                self.children_later(),
                i <= level@.len(),
                forall|j: int|
                    0 <= j < level@.len() ==> self.is_live(#[trigger] level@[j])
                        && self.stamps()[level@[j]] >= depth,
                imgs@ == kind_slots(self.nodes(), level@.subrange(0, i as int), ShapeKind::Image),
                boxes@ == kind_slots(self.nodes(), level@.subrange(0, i as int), ShapeKind::Box),
                next@ == children_level(self.nodes(), level@.subrange(0, i as int)),
                forall|j: int|
                    0 <= j < next@.len() ==> self.is_live(#[trigger] next@[j])
                        && self.stamps()[next@[j]] >= depth + 1,
            decreases level@.len() - i,
        {
            let key = level[i];
            let ghost pre = level@.subrange(0, i as int + 1);
            proof {
                assert(pre.drop_last() =~= level@.subrange(0, i as int));
                assert(pre.last() == key);
                assert(self.is_live(level@[i as int]));
            }
            match self.get_element(key) {
                Some(node) => {
                    match node.kind {
                        ShapeKind::Image => imgs.push(node.slot),
                        ShapeKind::Box => boxes.push(node.slot),
                        ShapeKind::Text => {},
                    }
                    let ghost before = next@;
                    append_keys(&mut next, &node.children);
                    proof {
                        assert forall|j: int| 0 <= j < next@.len() implies self.is_live(
                            #[trigger] next@[j],
                        ) && self.stamps()[next@[j]] >= depth + 1 by {
                            if j >= before.len() {
                                let c = node.children@[j - before.len()];
                                assert(next@[j] == c);
                                assert(self.nodes()[key].children@[j - before.len()] == c);
                            }
                        }
                    }
                },
                None => {},
            }
            i = i + 1;
        }
        proof {
            assert(level@.subrange(0, level@.len() as int) =~= level@);
        }
        proof {
            assert(level@.subrange(0, level@.len() as int) =~= level@);
        }
        (imgs, boxes, next)
    }

    /// Collapses the tree into instanced draws, breadth first: for each depth,
    /// shallowest first, one draw of its images and one of its boxes, each
    /// listing the elements' slots in the order the elements were discovered.
    /// Empty draws are left out.
    #[verifier::rlimit(40)]
    pub fn traverse_elements(&self) -> (r: Vec<DrawRequestedElements>)
        requires
            self.wf(),
        ensures
            r@.len() == draw_order(*self).len(),
            forall|i: int| 0 <= i < r@.len() ==> #[trigger] r@[i].entry() == draw_order(*self)[i],
    {
        let mut out: Vec<DrawRequestedElements> = Vec::new();
        let mut level: Vec<u64> = Vec::new();
        append_keys(&mut level, self.roots_keys());
        let ghost mut depth: nat = 0;
        proof {
            self.lemma_children_later();
            assert forall|j: int| 0 <= j < level@.len() implies self.is_live(#[trigger] level@[j])
                && self.stamps()[level@[j]] >= depth by {
                assert(level@[j] == self.root_keys()[j]);
            }
        }
        while level.len() > 0
            invariant
                self.wf(),
                self.children_later(),
                depth <= self.next_stamp(),
                level@ == level_keys(*self, depth),
                forall|j: int|
                    0 <= j < level@.len() ==> self.is_live(#[trigger] level@[j])
                        && self.stamps()[level@[j]] >= depth,
                out@.len() == entries_upto(*self, depth).len(),
                forall|i: int|
                    0 <= i < out@.len() ==> #[trigger] out@[i].entry() == entries_upto(
                        *self,
                        depth,
                    )[i],
            decreases self.next_stamp() - depth,
        {
            let (imgs, boxes, next) = self.scan_level(&level, Ghost(depth));
            let ghost prev = out@;
            if imgs.len() > 0 {
                out.push(DrawRequestedElements::Img(imgs));
            }
            if boxes.len() > 0 {
                out.push(DrawRequestedElements::Box(boxes));
            }
            proof {
                let e = level_entries(self.nodes(), level@);
                assert(entries_upto(*self, depth + 1) == entries_upto(*self, depth) + e);
                assert forall|i: int| 0 <= i < out@.len() implies #[trigger] out@[i].entry()
                    == entries_upto(*self, depth + 1)[i] by {
                    if i < prev.len() {
                        assert(out@[i] == prev[i]);
                    }
                }
                depth = depth + 1;
            }
            level = next;
        }
        proof {
            lemma_empty_levels_stay_empty(*self, depth, self.next_stamp());
        }
        out
    }
}

} // verus!
