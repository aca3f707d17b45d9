use vstd::prelude::*;
use crate::arena::{
    contents_wf, is_key, key_shaped, map_get, map_insert, map_len, map_new, map_remove,
    map_replace, slot_contents, Node, NodeMap, ShapeKind, MAX_ELEMENTS,
};
use crate::batch::{BatchRenderer, BufferError};
use crate::record::{InstanceRecord, Rect};
use crate::pulse::{first_occurrences, UpdateQueue};
use crate::tree::{in_subtree, subtree};
use std::collections::HashMap;

verus! {

/// Errors of structural operations on the scene.
#[derive(Clone, Copy, Debug, PartialEq, Eq, Structural)]
pub enum StructuralError {
    /// The key names no live element.
    StaleKey(u64),
    /// The arena holds as many elements as it can.
    ArenaFull,
    /// The element's batch could not take another instance.
    Buffer(BufferError),
    /// The element draws no instance (text).
    NoInstance(u64),
}

/// The element tree with the instance batches of its boxes and images.
pub struct ElementManager {
    elements: NodeMap,
    roots: Vec<u64>,
    boxes: BatchRenderer,
    images: BatchRenderer,
    stamps: Ghost<Map<u64, nat>>,
    next_stamp: Ghost<nat>,
}

/// Whether the batch `b` holds exactly the instances of the `kind` elements
/// of `nodes`, each element in the slot it records.
#[verifier::opaque]
pub open spec fn batch_matches(nodes: Map<u64, Node>, b: BatchRenderer, kind: ShapeKind) -> bool {
    &&& b.wf()
    &&& b.owners().len() == b.len_spec()
    &&& forall|k: u64|
        #[trigger] nodes.contains_key(k) && nodes[k].kind == kind ==> nodes[k].slot < b.len_spec()
            && b.owners()[nodes[k].slot as int] == k
    &&& forall|i: int|
        0 <= i < b.len_spec() ==> nodes.contains_key(#[trigger] b.owners()[i]) && nodes[b.owners()[i]].kind
            == kind && nodes[b.owners()[i]].slot == i
}

/// A batch that keeps the owners and the live count of a matching batch
/// still matches.
pub proof fn lemma_batch_matches_same_owners(
    nodes: Map<u64, Node>,
    a: BatchRenderer,
    b: BatchRenderer,
    kind: ShapeKind,
)
    requires
        batch_matches(nodes, a, kind),
        b.wf(),
        b.owners() == a.owners(),
        b.len_spec() == a.len_spec(),
    ensures
        batch_matches(nodes, b, kind),
{
    reveal(batch_matches);
}

/// The owners of a matching batch are live.
pub proof fn lemma_batch_owners_live(nodes: Map<u64, Node>, b: BatchRenderer, kind: ShapeKind)
    requires
        batch_matches(nodes, b, kind),
    ensures
        b.wf(),
        b.owners().len() == b.len_spec(),
        forall|i: int| 0 <= i < b.len_spec() ==> nodes.contains_key(#[trigger] b.owners()[i]),
{
    reveal(batch_matches);
}

impl ElementManager {
    /// The live elements by key.
    pub closed spec fn nodes(&self) -> Map<u64, Node> {
        slot_contents(self.elements)
    }

    /// The keys of the elements without a parent, in creation order.
    pub closed spec fn root_keys(&self) -> Seq<u64> {
        self.roots@
    }

    pub closed spec fn box_batch(&self) -> BatchRenderer {
        self.boxes
    }

    pub closed spec fn image_batch(&self) -> BatchRenderer {
        self.images
    }

    /// Creation order of the live elements; a child is created after its parent.
    pub closed spec fn stamps(&self) -> Map<u64, nat> {
        self.stamps@
    }

    pub closed spec fn next_stamp(&self) -> nat {
        self.next_stamp@
    }

    pub open spec fn is_live(&self, k: u64) -> bool {
        self.nodes().contains_key(k)
    }

    pub open spec fn parents_wf(&self) -> bool {
        forall|k: u64|
            #[trigger] self.nodes().contains_key(k) ==> match self.nodes()[k].parent {
                Some(p) => self.nodes().contains_key(p) && self.nodes()[p].children@.contains(k)
                    && self.stamps()[p] < self.stamps()[k],
                None => self.root_keys().contains(k),
            }
    }

    pub open spec fn children_wf(&self) -> bool {
        &&& forall|k: u64| #[trigger]
            self.nodes().contains_key(k) ==> self.nodes()[k].children@.no_duplicates()
        &&& forall|k: u64, i: int|
            self.nodes().contains_key(k) && 0 <= i < self.nodes()[k].children@.len()
                ==> self.nodes().contains_key(#[trigger] self.nodes()[k].children@[i])
                && self.nodes()[self.nodes()[k].children@[i]].parent == Some(k)
    }

    pub open spec fn roots_wf(&self) -> bool {
        &&& self.root_keys().no_duplicates()
        &&& forall|i: int|
            0 <= i < self.root_keys().len() ==> self.nodes().contains_key(
                #[trigger] self.root_keys()[i],
            ) && self.nodes()[self.root_keys()[i]].parent is None
    }

    pub open spec fn stamps_wf(&self) -> bool {
        forall|k: u64| #[trigger]
            self.nodes().contains_key(k) ==> self.stamps().contains_key(k) && self.stamps()[k]
                < self.next_stamp()
    }

    /// Every child of a live element is live and was created after it.
    pub open spec fn children_later(&self) -> bool {
        forall|k: u64, i: int|
            self.nodes().contains_key(k) && 0 <= i < self.nodes()[k].children@.len()
                ==> self.nodes().contains_key(#[trigger] self.nodes()[k].children@[i])
                && self.stamps()[k] < self.stamps()[self.nodes()[k].children@[i]]
    }

    pub proof fn lemma_children_later(&self)
        requires
            self.wf(),
        ensures
            self.children_later(),
    {
        assert forall|k: u64, i: int|
            self.nodes().contains_key(k) && 0 <= i < self.nodes()[k].children@.len()
                implies self.nodes().contains_key(#[trigger] self.nodes()[k].children@[i])
                && self.stamps()[k] < self.stamps()[self.nodes()[k].children@[i]] by {
            let c = self.nodes()[k].children@[i];
            assert(self.nodes().contains_key(c));
        }
    }

    /// The scene's invariant: parent and child links agree, the roots are the
    /// elements without a parent, and each batch holds exactly the instances
    /// of the elements of its shape.
    pub open spec fn wf(&self) -> bool {
        &&& crate::arena::contents_wf(self.nodes())
        &&& self.parents_wf()
        &&& self.children_wf()
        &&& self.roots_wf()
        &&& self.stamps_wf()
        &&& batch_matches(self.nodes(), self.box_batch(), ShapeKind::Box)
        &&& batch_matches(self.nodes(), self.image_batch(), ShapeKind::Image)
    }

    /// An empty scene.
    pub fn new() -> (r: ElementManager)
        ensures
            r.wf(),
            r.nodes().dom() == Set::<u64>::empty(),
            r.root_keys() == Seq::<u64>::empty(),
            r.box_batch().len_spec() == 0,
            r.image_batch().len_spec() == 0,
    {
        proof {
            reveal(batch_matches);
        }
        ElementManager {
            elements: map_new(),
            roots: Vec::new(),
            boxes: BatchRenderer::new(),
            images: BatchRenderer::new(),
            stamps: Ghost(Map::empty()),
            next_stamp: Ghost(0),
        }
    }

    /// Number of live elements.
    pub fn len(&self) -> (r: usize)
        requires
            self.wf(),
        ensures
            r == self.nodes().len(),
    {
        map_len(&self.elements)
    }

    /// The element under `key`, or `None` for a stale or unknown key.
    pub fn get_element(&self, key: u64) -> (r: Option<&Node>)
        requires
            crate::arena::contents_wf(self.nodes()),
        ensures
            r is Some <==> self.is_live(key),
            r is Some ==> *r->Some_0 == self.nodes()[key],
    {
        if !key_shaped(key) {
            return None;
        }
        map_get(&self.elements, key)
    }

    /// The direct children of `key` in paint order, or `None` for a stale key.
    pub fn children_of(&self, key: u64) -> (r: Option<&Vec<u64>>)
        requires
            crate::arena::contents_wf(self.nodes()),
        ensures
            r is Some <==> self.is_live(key),
            r is Some ==> r->Some_0@ == self.nodes()[key].children@,
    {
        match self.get_element(key) {
            Some(node) => Some(&node.children),
            None => None,
        }
    }

    /// The keys of the elements without a parent.
    pub fn roots_keys(&self) -> (r: &Vec<u64>)
        ensures
            r@ == self.root_keys(),
    {
        &self.roots
    }

    /// The instances of the boxes.
    pub fn box_renderer(&self) -> (r: &BatchRenderer)
        ensures
            *r == self.box_batch(),
    {
        &self.boxes
    }

    /// The instances of the images.
    pub fn image_renderer(&self) -> (r: &BatchRenderer)
        ensures
            *r == self.image_batch(),
    {
        &self.images
    }
}

/// `new` is `old` with the element `k` added as the last child of `parent`
/// (or as the last root): the other elements are unchanged but for the
/// parent's child list.
pub open spec fn is_insertion(
    old: ElementManager,
    new: ElementManager,
    k: u64,
    kind: ShapeKind,
    style: u64,
    parent: Option<u64>,
) -> bool {
    &&& !old.is_live(k)
    &&& new.nodes().dom() == old.nodes().dom().insert(k)
    &&& new.nodes()[k].parent == parent
    &&& new.nodes()[k].children@ == Seq::<u64>::empty()
    &&& new.nodes()[k].style == style
    &&& new.nodes()[k].kind == kind
    &&& forall|j: u64|
        #[trigger] old.nodes().contains_key(j) && Some(j) != parent ==> new.nodes()[j]
            == old.nodes()[j]
    &&& match parent {
        Some(p) => {
            &&& new.nodes()[p].parent == old.nodes()[p].parent
            &&& new.nodes()[p].children@ == old.nodes()[p].children@.push(k)
            &&& new.nodes()[p].style == old.nodes()[p].style
            &&& new.nodes()[p].kind == old.nodes()[p].kind
            &&& new.nodes()[p].slot == old.nodes()[p].slot
            &&& new.root_keys() == old.root_keys()
        },
        None => new.root_keys() == old.root_keys().push(k),
    }
}

/// Whether batch `b` can take one more instance.
pub open spec fn batch_can_grow(b: BatchRenderer) -> bool {
    b.len_spec() < b.cap() || b.cap() <= u64::MAX / 2
}

/// Whether an element of `kind` can be added to `s` under `parent` without error.
pub open spec fn can_insert(s: ElementManager, kind: ShapeKind, parent: Option<u64>) -> bool {
    &&& (parent matches Some(p) ==> s.is_live(p))
    &&& s.nodes().len() < MAX_ELEMENTS
    &&& (kind == ShapeKind::Box ==> batch_can_grow(s.box_batch()))
    &&& (kind == ShapeKind::Image ==> batch_can_grow(s.image_batch()))
}

/// What adding an element of `kind` with instance `record` does: on success
/// the new element's instance is appended to its batch; on failure nothing
/// changes and the error names the first check that failed.
pub open spec fn insert_outcome(
    old: ElementManager,
    new: ElementManager,
    kind: ShapeKind,
    style: u64,
    parent: Option<u64>,
    record: InstanceRecord,
    r: Result<u64, StructuralError>,
) -> bool {
    &&& (r is Ok <==> can_insert(old, kind, parent))
    &&& match r {
        Ok(k) => {
            &&& is_insertion(old, new, k, kind, style, parent)
            &&& match kind {
                ShapeKind::Box => {
                    &&& new.nodes()[k].slot == old.box_batch().len_spec()
                    &&& new.box_batch().records() == old.box_batch().records().push(record)
                    &&& new.box_batch().owners() == old.box_batch().owners().push(k)
                    &&& new.image_batch() == old.image_batch()
                },
                ShapeKind::Image => {
                    &&& new.nodes()[k].slot == old.image_batch().len_spec()
                    &&& new.image_batch().records() == old.image_batch().records().push(record)
                    &&& new.image_batch().owners() == old.image_batch().owners().push(k)
                    &&& new.box_batch() == old.box_batch()
                },
                ShapeKind::Text => {
                    &&& new.nodes()[k].slot == 0
                    &&& new.box_batch() == old.box_batch()
                    &&& new.image_batch() == old.image_batch()
                },
            }
        },
        Err(e) => {
            &&& new == old
            &&& match parent {
                Some(p) if !old.is_live(p) => e == StructuralError::StaleKey(p),
                _ => if old.nodes().len() >= MAX_ELEMENTS {
                    e == StructuralError::ArenaFull
                } else {
                    e == StructuralError::Buffer(BufferError::CapacityExhausted)
                },
            }
        },
    }
}

impl ElementManager {
    proof fn lemma_push_distinct(s: Seq<u64>, k: u64)
        requires
            s.no_duplicates(),
            !s.contains(k),
        ensures
            s.push(k).no_duplicates(),
    {
        assert forall|i: int, j: int|
            0 <= i < s.len() + 1 && 0 <= j < s.len() + 1 && i != j implies s.push(k)[i] != s.push(
                k,
            )[j] by {
            if i == s.len() {
                assert(s[j] != k);
            } else if j == s.len() {
                assert(s[i] != k);
            }
        }
    }

    #[verifier::rlimit(100)]
    proof fn lemma_insert_wf(
        o: ElementManager,
        n: ElementManager,
        key: u64,
        kind: ShapeKind,
        style: u64,
        parent: Option<u64>,
        record: InstanceRecord,
    )
        requires
            o.wf(),
            can_insert(o, kind, parent),
            is_key(key),
            is_insertion(o, n, key, kind, style, parent),
            n.stamps() == o.stamps().insert(key, o.next_stamp()),
            n.next_stamp() == o.next_stamp() + 1,
            match kind {
                ShapeKind::Box => {
                    &&& n.nodes()[key].slot == o.box_batch().len_spec()
                    &&& n.box_batch().wf()
                    &&& n.box_batch().records() == o.box_batch().records().push(record)
                    &&& n.box_batch().owners() == o.box_batch().owners().push(key)
                    &&& n.image_batch() == o.image_batch()
                },
                ShapeKind::Image => {
                    &&& n.nodes()[key].slot == o.image_batch().len_spec()
                    &&& n.image_batch().wf()
                    &&& n.image_batch().records() == o.image_batch().records().push(record)
                    &&& n.image_batch().owners() == o.image_batch().owners().push(key)
                    &&& n.box_batch() == o.box_batch()
                },
                ShapeKind::Text => {
                    &&& n.box_batch() == o.box_batch()
                    &&& n.image_batch() == o.image_batch()
                },
            },
        ensures
            n.wf(),
    {
        reveal(batch_matches);
            assert(crate::arena::contents_wf(n.nodes()));
        assert(n.parents_wf()) by {
            assert forall|j: u64| #[trigger] n.nodes().contains_key(j) implies match n.nodes()[j].parent {
                Some(q) => n.nodes().contains_key(q) && n.nodes()[q].children@.contains(j)
                    && n.stamps()[q] < n.stamps()[j],
                None => n.root_keys().contains(j),
            } by {
                if j == key {
                    match parent {
                        Some(q) => {
                            assert(n.nodes()[q].children@[o.nodes()[q].children@.len() as int] == j);
                        },
                        None => {
                            assert(n.root_keys()[o.root_keys().len() as int] == j);
                        },
                    }
                } else {
                    assert(o.nodes().contains_key(j));
                    assert(n.nodes()[j].parent == o.nodes()[j].parent);
                    match o.nodes()[j].parent {
                        Some(q) => {
                            let i = choose|i: int| 0 <= i < o.nodes()[q].children@.len() && o.nodes()[q].children@[i] == j;
                            assert(n.nodes()[q].children@[i] == j);
                        },
                        None => {
                            let i = choose|i: int| 0 <= i < o.root_keys().len() && o.root_keys()[i] == j;
                            assert(n.root_keys()[i] == j);
                        },
                    }
                }
            }
        }
        assert(n.children_wf()) by {
            assert forall|j: u64, i: int|
                n.nodes().contains_key(j) && 0 <= i < n.nodes()[j].children@.len()
                    implies n.nodes().contains_key(#[trigger] n.nodes()[j].children@[i])
                    && n.nodes()[n.nodes()[j].children@[i]].parent == Some(j) by {
                if j != key {
                    let c = n.nodes()[j].children@[i];
                    if i < o.nodes()[j].children@.len() {
                        assert(o.nodes()[j].children@[i] == c);
                        assert(o.nodes().contains_key(c));
                    }
                }
            }
        }
        assert(n.roots_wf()) by {
            assert forall|i: int| 0 <= i < n.root_keys().len() implies n.nodes().contains_key(
                #[trigger] n.root_keys()[i],
            ) && n.nodes()[n.root_keys()[i]].parent is None by {
                if i < o.root_keys().len() {
                    assert(o.root_keys()[i] == n.root_keys()[i]);
                }
            }
        }
        assert(n.stamps_wf());
        assert(batch_matches(n.nodes(), n.box_batch(), ShapeKind::Box)) by {
            assert forall|i: int| 0 <= i < n.box_batch().len_spec() implies n.nodes().contains_key(
                #[trigger] n.box_batch().owners()[i],
            ) && n.nodes()[n.box_batch().owners()[i]].kind == ShapeKind::Box
                && n.nodes()[n.box_batch().owners()[i]].slot == i by {
                if i < o.box_batch().len_spec() {
                    assert(n.box_batch().owners()[i] == o.box_batch().owners()[i]);
                }
            }
        }
        assert(batch_matches(n.nodes(), n.image_batch(), ShapeKind::Image)) by {
            assert forall|i: int| 0 <= i < n.image_batch().len_spec() implies n.nodes().contains_key(
                #[trigger] n.image_batch().owners()[i],
            ) && n.nodes()[n.image_batch().owners()[i]].kind == ShapeKind::Image
                && n.nodes()[n.image_batch().owners()[i]].slot == i by {
                if i < o.image_batch().len_spec() {
                    assert(n.image_batch().owners()[i] == o.image_batch().owners()[i]);
                }
            }
        }
    }

    /// Adds an element of `kind` under `parent` (a root when `None`); boxes and
    /// images take `record` as their instance, in a new last slot of their
    /// batch.
    #[verifier::rlimit(80)]
    fn insert_element(
        &mut self,
        kind: ShapeKind,
        style: u64,
        parent: Option<u64>,
        record: InstanceRecord,
    ) -> (r: Result<u64, StructuralError>)
        requires
            old(self).wf(),
        ensures
            final(self).wf(),
            insert_outcome(*old(self), *final(self), kind, style, parent, record, r),
    {
        proof {
            reveal(batch_matches);
        }
        if let Some(p) = parent {
            if !key_shaped(p) {
                return Err(StructuralError::StaleKey(p));
            }
            if map_get(&self.elements, p).is_none() {
                return Err(StructuralError::StaleKey(p));
            }
        }
        if map_len(&self.elements) >= MAX_ELEMENTS {
            return Err(StructuralError::ArenaFull);
        }
        let ghost old_self = *self;
        let slot: u64 = match kind {
            ShapeKind::Box => match self.boxes.push(record, 0) {
                Ok(s) => s,
                Err(e) => {
                    return Err(StructuralError::Buffer(e));
                },
            },
            ShapeKind::Image => match self.images.push(record, 0) {
                Ok(s) => s,
                Err(e) => {
                    return Err(StructuralError::Buffer(e));
                },
            },
            ShapeKind::Text => 0,
        };
        let key = map_insert(
            &mut self.elements,
            Node { parent, children: Vec::new(), style, kind, slot },
        );
        match kind {
            ShapeKind::Box => self.boxes.set_owner(slot, key),
            ShapeKind::Image => self.images.set_owner(slot, key),
            ShapeKind::Text => {},
        }
        proof {
            self.stamps@ = self.stamps@.insert(key, self.next_stamp@);
            self.next_stamp@ = self.next_stamp@ + 1;
        }
        assert(parent matches Some(p) ==> p != key);
        match parent {
            Some(p) => {
                let placeholder = Node {
                    parent: None,
                    children: Vec::new(),
                    style: 0,
                    kind: ShapeKind::Text,
                    slot: 0,
                };
                let mut pn = map_replace(&mut self.elements, p, placeholder);
                let ghost old_children = pn.children@;
                pn.children.push(key);
                map_replace(&mut self.elements, p, pn);
                proof {
                    assert(!old_children.contains(key)) by {
                        if old_children.contains(key) {
                            let i = choose|i: int|
                                0 <= i < old_children.len() && old_children[i] == key;
                            assert(old_self.nodes()[p].children@[i] == key);
                        }
                    }
                    Self::lemma_push_distinct(old_children, key);
                }
            },
            None => {
                proof {
                    assert(!self.roots@.contains(key)) by {
                        if self.roots@.contains(key) {
                            let i = choose|i: int| 0 <= i < self.roots@.len() && self.roots@[i] == key;
                            assert(old_self.root_keys()[i] == key);
                        }
                    }
                    Self::lemma_push_distinct(self.roots@, key);
                }
                self.roots.push(key);
            },
        }
        proof {
            let o = old_self;
            let n = *self;
            assert(n.nodes().dom() =~= o.nodes().dom().insert(key));
            assert forall|j: u64| #[trigger] o.nodes().contains_key(j) && Some(j) != parent
                implies n.nodes()[j] == o.nodes()[j] by {
                assert(j != key);
            }
            assert(n.nodes()[key].slot == slot);
            match kind {
                ShapeKind::Box => {
                    assert(n.box_batch().owners() =~= o.box_batch().owners().push(key));
                },
                ShapeKind::Image => {
                    assert(n.image_batch().owners() =~= o.image_batch().owners().push(key));
                },
                ShapeKind::Text => {},
            }
            assert(is_insertion(o, n, key, kind, style, parent));
            Self::lemma_insert_wf(o, n, key, kind, style, parent, record);
        }
        Ok(key)
    }
}

/// A record that stands for "no instance" where an element draws none.
pub open spec fn no_record() -> InstanceRecord {
    InstanceRecord {
        rect: crate::record::Rect { x: 0, y: 0, w: 0, h: 0 },
        color: crate::record::Color { r: 0, g: 0, b: 0, a: 0 },
    }
}

impl ElementManager {
    /// Adds a box under `parent` (a root when `None`) whose instance is
    /// `record`.
    pub fn insert_box(&mut self, style: u64, parent: Option<u64>, record: InstanceRecord) -> (r:
        Result<u64, StructuralError>)
        requires
            old(self).wf(),
        ensures
            final(self).wf(),
            insert_outcome(*old(self), *final(self), ShapeKind::Box, style, parent, record, r),
    {
        self.insert_element(ShapeKind::Box, style, parent, record)
    }

    /// Adds an image under `parent` (a root when `None`) whose instance is
    /// `record`.
    pub fn insert_image(&mut self, style: u64, parent: Option<u64>, record: InstanceRecord) -> (r:
        Result<u64, StructuralError>)
        requires
            old(self).wf(),
        ensures
            final(self).wf(),
            insert_outcome(*old(self), *final(self), ShapeKind::Image, style, parent, record, r),
    {
        self.insert_element(ShapeKind::Image, style, parent, record)
    }

    /// Adds a text element under `parent` (a root when `None`). Text is drawn
    /// apart from the batches, so it takes no instance.
    pub fn insert_text(&mut self, style: u64, parent: Option<u64>) -> (r: Result<u64, StructuralError>)
        requires
            old(self).wf(),
        ensures
            final(self).wf(),
            insert_outcome(*old(self), *final(self), ShapeKind::Text, style, parent, no_record(), r),
    {
        let blank = InstanceRecord {
            rect: crate::record::Rect { x: 0, y: 0, w: 0, h: 0 },
            color: crate::record::Color { r: 0, g: 0, b: 0, a: 0 },
        };
        self.insert_element(ShapeKind::Text, style, parent, blank)
    }
}

/// The record of a batch slot after layout: its rectangle is the one computed
/// for the owner's style, if there is one, and its colour is kept.
pub open spec fn laid_out(
    nodes: Map<u64, Node>,
    rects: Map<u64, Rect>,
    b: BatchRenderer,
    i: int,
) -> InstanceRecord {
    let style = nodes[b.owners()[i]].style;
    if rects.contains_key(style) {
        InstanceRecord { rect: rects[style], color: b.records()[i].color }
    } else {
        b.records()[i]
    }
}

/// The owners of the first `n` slots of `b` whose style has no computed
/// rectangle, in slot order.
pub open spec fn unplaced(nodes: Map<u64, Node>, rects: Map<u64, Rect>, b: BatchRenderer, n: int) -> Seq<
    u64,
>
    decreases n,
{
    if n <= 0 {
        Seq::empty()
    } else {
        unplaced(nodes, rects, b, n - 1) + if rects.contains_key(nodes[b.owners()[n - 1]].style) {
            Seq::empty()
        } else {
            seq![b.owners()[n - 1]]
        }
    }
}

/// The live keys among `keys`, in order.
pub open spec fn live_only(nodes: Map<u64, Node>, keys: Seq<u64>) -> Seq<u64>
    decreases keys.len(),
{
    if keys.len() == 0 {
        Seq::empty()
    } else {
        live_only(nodes, keys.drop_last()) + if nodes.contains_key(keys.last()) {
            seq![keys.last()]
        } else {
            Seq::<u64>::empty()
        }
    }
}

/// Writes the computed rectangles into the slots of `b`, whose owners are
/// live in `elements`; returns the owners whose style has no rectangle.
#[verifier::rlimit(40)]
fn layout_slots(b: &mut BatchRenderer, elements: &NodeMap, rects: &HashMap<u64, Rect>) -> (r: Vec<
    u64,
>)
    requires
        old(b).wf(),
        crate::arena::contents_wf(slot_contents(*elements)),
        old(b).owners().len() == old(b).len_spec(),
        forall|i: int|
            0 <= i < old(b).len_spec() ==> slot_contents(*elements).contains_key(
                #[trigger] old(b).owners()[i],
            ),
    ensures
        final(b).wf(),
        final(b).owners() == old(b).owners(),
        final(b).len_spec() == old(b).len_spec(),
        forall|i: int|
            0 <= i < old(b).len_spec() ==> #[trigger] final(b).records()[i] == laid_out(
                slot_contents(*elements),
                rects@,
                *old(b),
                i,
            ),
        r@ == unplaced(slot_contents(*elements), rects@, *old(b), old(b).len_spec() as int),
{
    broadcast use vstd::std_specs::hash::group_hash_axioms;

    let ghost nodes = slot_contents(*elements);
    let n = b.len();
    let mut missing: Vec<u64> = Vec::new();
    let mut i: u64 = 0;
    while i < n
        invariant
            b.wf(),
            n == old(b).len_spec(),
            b.owners() == old(b).owners(),
            b.len_spec() == n,
            i <= n,
            nodes == slot_contents(*elements),
            crate::arena::contents_wf(nodes),
            forall|j: int| 0 <= j < n ==> nodes.contains_key(#[trigger] old(b).owners()[j]),
            forall|j: int|
                0 <= j < n ==> #[trigger] b.records()[j] == if j < i {
                    laid_out(nodes, rects@, *old(b), j)
                } else {
                    old(b).records()[j]
                },
            missing@ == unplaced(nodes, rects@, *old(b), i as int),
        decreases n - i,
    {
        let owner = b.owner(i).unwrap();
        assert(nodes.contains_key(old(b).owners()[i as int]));
        let style = map_get(elements, owner).unwrap().style;
        match rects.get(&style) {
            Some(rect) => {
                let _ = b.resize(i, *rect);
            },
            None => {
                missing.push(owner);
            },
        }
        i = i + 1;
    }
    missing
}

impl ElementManager {
    /// A scene with the same tree as a well-formed one, and batches that
    /// match it, is well formed.
    proof fn lemma_wf_same_tree(o: ElementManager, n: ElementManager)
        requires
            o.wf(),
            n.nodes() == o.nodes(),
            n.root_keys() == o.root_keys(),
            n.stamps() == o.stamps(),
            n.next_stamp() == o.next_stamp(),
            batch_matches(n.nodes(), n.box_batch(), ShapeKind::Box),
            batch_matches(n.nodes(), n.image_batch(), ShapeKind::Image),
        ensures
            n.wf(),
    {
    }

    /// Writes the rectangles computed for each style (keyed by style id) into
    /// the instances of the boxes and images that use it, keeping their
    /// colours. Elements whose style has no computed rectangle keep their last
    /// rectangle; their keys are returned, boxes first, in slot order.
    #[verifier::rlimit(40)]
    pub fn apply_layout(&mut self, rects: &HashMap<u64, Rect>) -> (r: Vec<u64>)
        requires
            old(self).wf(),
        ensures
            final(self).wf(),
            final(self).nodes() == old(self).nodes(),
            final(self).root_keys() == old(self).root_keys(),
            final(self).box_batch().owners() == old(self).box_batch().owners(),
            final(self).image_batch().owners() == old(self).image_batch().owners(),
            final(self).box_batch().len_spec() == old(self).box_batch().len_spec(),
            final(self).image_batch().len_spec() == old(self).image_batch().len_spec(),
            forall|i: int|
                0 <= i < old(self).box_batch().len_spec() ==> #[trigger] final(self).box_batch().records()[i]
                    == laid_out(old(self).nodes(), rects@, old(self).box_batch(), i),
            forall|i: int|
                0 <= i < old(self).image_batch().len_spec() ==> #[trigger] final(self).image_batch().records()[i]
                    == laid_out(old(self).nodes(), rects@, old(self).image_batch(), i),
            r@ == unplaced(
                old(self).nodes(),
                rects@,
                old(self).box_batch(),
                old(self).box_batch().len_spec() as int,
            ) + unplaced(
                old(self).nodes(),
                rects@,
                old(self).image_batch(),
                old(self).image_batch().len_spec() as int,
            ),
    {
        let ghost old_self = *self;
        proof {
            lemma_batch_owners_live(self.nodes(), self.boxes, ShapeKind::Box);
            lemma_batch_owners_live(self.nodes(), self.images, ShapeKind::Image);
        }
        let mut missing = layout_slots(&mut self.boxes, &self.elements, rects);
        let mut more = layout_slots(&mut self.images, &self.elements, rects);
        missing.append(&mut more);
        proof {
            lemma_batch_matches_same_owners(old_self.nodes(), old_self.boxes, self.boxes, ShapeKind::Box);
            lemma_batch_matches_same_owners(old_self.nodes(), old_self.images, self.images, ShapeKind::Image);
            Self::lemma_wf_same_tree(old_self, *self);
        }
        missing
    }

    /// Empties `queue` and returns the live elements whose update was
    /// requested, each once, in the order of first request. Requests for
    /// elements removed since are dropped.
    #[verifier::rlimit(40)]
    pub fn check_for_updates(&self, queue: &mut UpdateQueue) -> (r: Vec<u64>)
        requires
            self.wf(),
        ensures
            r@ == live_only(self.nodes(), first_occurrences(old(queue).pending())),
            r@.no_duplicates(),
            final(queue).pending() == Seq::<u64>::empty(),
    {
        let keys = queue.drain();
        let mut out: Vec<u64> = Vec::new();
        let mut i: usize = 0;
        while i < keys.len()
            invariant
                crate::arena::contents_wf(self.nodes()),
                i <= keys@.len(),
                out@ == live_only(self.nodes(), keys@.subrange(0, i as int)),
            decreases keys@.len() - i,
        {
            let k = keys[i];
            proof {
                let s = keys@.subrange(0, i as int + 1);
                assert(s.drop_last() =~= keys@.subrange(0, i as int));
                assert(s.last() == k);
            }
            if self.get_element(k).is_some() {
                out.push(k);
            }
            i = i + 1;
        }
        assert(keys@.subrange(0, keys@.len() as int) =~= keys@);
        proof {
            lemma_live_only_distinct(self.nodes(), keys@);
        }
        out
    }
}

/// `s` without the occurrences of `k`.
pub open spec fn remove_key(s: Seq<u64>, k: u64) -> Seq<u64>
    decreases s.len(),
{
    if s.len() == 0 {
        Seq::empty()
    } else {
        remove_key(s.drop_last(), k) + if s.last() == k {
            Seq::<u64>::empty()
        } else {
            seq![s.last()]
        }
    }
}

pub proof fn lemma_remove_key(s: Seq<u64>, k: u64)
    ensures
        forall|x: u64| remove_key(s, k).contains(x) <==> (s.contains(x) && x != k),
        s.no_duplicates() ==> remove_key(s, k).no_duplicates(),
    decreases s.len(),
{
    if s.len() > 0 {
        let f = s.drop_last();
        lemma_remove_key(f, k);
        let rf = remove_key(f, k);
        assert forall|x: u64| s.contains(x) <==> (f.contains(x) || x == s.last()) by {
            if s.contains(x) && x != s.last() {
                let i = choose|i: int| 0 <= i < s.len() && s[i] == x;
                assert(f[i] == x);
            }
            if f.contains(x) {
                let i = choose|i: int| 0 <= i < f.len() && f[i] == x;
                assert(s[i] == x);
            }
            assert(s[s.len() - 1] == s.last());
        }
        if s.last() == k {
            assert(remove_key(s, k) =~= rf);
            assert forall|x: u64| remove_key(s, k).contains(x) <==> (s.contains(x) && x != k) by {
                assert(rf.contains(x) <==> (f.contains(x) && x != k));
            }
        } else {
            let r = rf.push(s.last());
            assert(remove_key(s, k) =~= r);
            assert forall|x: u64| r.contains(x) <==> (rf.contains(x) || x == s.last()) by {
                if r.contains(x) && x != s.last() {
                    let i = choose|i: int| 0 <= i < r.len() && r[i] == x;
                    assert(rf[i] == x);
                }
                if rf.contains(x) {
                    let i = choose|i: int| 0 <= i < rf.len() && rf[i] == x;
                    assert(r[i] == x);
                }
                assert(r[rf.len() as int] == s.last());
            }
            if s.no_duplicates() {
                assert(!f.contains(s.last())) by {
                    if f.contains(s.last()) {
                        let i = choose|i: int| 0 <= i < f.len() && f[i] == s.last();
                        assert(s[i] == s[s.len() - 1]);
                    }
                }
                assert forall|i: int, j: int| 0 <= i < r.len() && 0 <= j < r.len() && i != j
                    implies r[i] != r[j] by {
                    if i == rf.len() {
                        assert(rf.contains(r[j]));
                    } else if j == rf.len() {
                        assert(rf.contains(r[i]));
                    }
                }
            }
        }
    }
}

/// The keys of `v` other than `k`, in order.
pub fn without(v: &Vec<u64>, k: u64) -> (r: Vec<u64>)
    ensures
        r@ == remove_key(v@, k),
{
    let mut out: Vec<u64> = Vec::new();
    let mut i: usize = 0;
    while i < v.len()
        invariant
            i <= v@.len(),
            out@ == remove_key(v@.subrange(0, i as int), k),
        decreases v@.len() - i,
    {
        proof {
            let s = v@.subrange(0, i as int + 1);
            assert(s.drop_last() =~= v@.subrange(0, i as int));
        }
        if v[i] != k {
            out.push(v[i]);
        }
        i = i + 1;
    }
    assert(v@.subrange(0, v@.len() as int) =~= v@);
    out
}

/// `n` is `m` with the slot of `j` set to `slot` and nothing else changed.
pub open spec fn reslotted(m: Map<u64, Node>, n: Map<u64, Node>, j: u64, slot: u64) -> bool {
    &&& n.dom() == m.dom()
    &&& forall|i: u64| #[trigger] m.contains_key(i) && i != j ==> n[i] == m[i]
    &&& n[j].parent == m[j].parent
    &&& n[j].children@ == m[j].children@
    &&& n[j].style == m[j].style
    &&& n[j].kind == m[j].kind
    &&& n[j].slot == slot
}

/// Sets the slot recorded in the live element `k`.
fn set_slot(elements: &mut NodeMap, k: u64, slot: u64)
    requires
        contents_wf(slot_contents(*old(elements))),
        slot_contents(*old(elements)).contains_key(k),
    ensures
        reslotted(slot_contents(*old(elements)), slot_contents(*final(elements)), k, slot),
{
    let placeholder = Node { parent: None, children: Vec::new(), style: 0, kind: ShapeKind::Text, slot: 0 };
    let mut node = map_replace(elements, k, placeholder);
    node.slot = slot;
    map_replace(elements, k, node);
    proof {
        assert(slot_contents(*final(elements)).dom() =~= slot_contents(*old(elements)).dom());
    }
}

/// Frees `slot` of `b` by moving the last instance into it, and records the
/// moved element's new slot.
fn release_slot(b: &mut BatchRenderer, elements: &mut NodeMap, slot: u64)
    requires
        old(b).wf(),
        old(b).owners().len() == old(b).len_spec(),
        slot < old(b).len_spec(),
        contents_wf(slot_contents(*old(elements))),
        slot + 1 < old(b).len_spec() ==> slot_contents(*old(elements)).contains_key(
            old(b).owners().last(),
        ),
    ensures
        final(b).wf(),
        final(b).owners().len() == final(b).len_spec(),
        final(b).records() == old(b).records().update(slot as int, old(b).records().last()).drop_last(),
        final(b).owners() == old(b).owners().update(slot as int, old(b).owners().last()).drop_last(),
        slot < final(b).len_spec() ==> reslotted(
            slot_contents(*old(elements)),
            slot_contents(*final(elements)),
            old(b).owners().last(),
            slot,
        ),
        slot >= final(b).len_spec() ==> slot_contents(*final(elements)) == slot_contents(
            *old(elements),
        ),
{
    let _ = b.remove(slot);
    if slot < b.len() {
        let moved = b.owner(slot).unwrap();
        set_slot(elements, moved, slot);
    }
}

/// `n` is `m` without `x`, every other element keeping its links, style and
/// shape.
pub open spec fn dropped(m: Map<u64, Node>, n: Map<u64, Node>, x: u64) -> bool {
    &&& n.dom() == m.dom().remove(x)
    &&& forall|j: u64|
        #[trigger] n.contains_key(j) ==> n[j].parent == m[j].parent && n[j].children@
            == m[j].children@ && n[j].style == m[j].style && n[j].kind == m[j].kind
}

/// Swap-removing the instance of `x` from the batch of its shape, and moving
/// the last instance's owner to the freed slot, keeps the batch matching and
/// every other element's instance.
#[verifier::rlimit(40)]
proof fn lemma_release_matches(
    m: Map<u64, Node>,
    n: Map<u64, Node>,
    x: u64,
    b: BatchRenderer,
    b2: BatchRenderer,
    kind: ShapeKind,
)
    requires
        batch_matches(m, b, kind),
        m.contains_key(x),
        m[x].kind == kind,
        dropped(m, n, x),
        b2.wf(),
        b2.owners().len() == b2.len_spec(),
        b2.records() == b.records().update(m[x].slot as int, b.records().last()).drop_last(),
        b2.owners() == b.owners().update(m[x].slot as int, b.owners().last()).drop_last(),
        forall|j: u64|
            #[trigger] n.contains_key(j) && (j != b.owners().last() || m[x].slot + 1 == b.len_spec())
                ==> n[j].slot == m[j].slot,
        m[x].slot < b2.len_spec() ==> n[b.owners().last()].slot == m[x].slot,
    ensures
        batch_matches(n, b2, kind),
        forall|j: u64|
            #[trigger] n.contains_key(j) && n[j].kind == kind ==> b2.records()[n[j].slot as int]
                == b.records()[m[j].slot as int],
{
    reveal(batch_matches);
    let s = m[x].slot as int;
    let last = b.len_spec() - 1;
    let mv = b.owners().last();
    assert(b.owners()[s] == x);
    assert(m.contains_key(mv) && m[mv].slot == last) by {
        assert(m.contains_key(b.owners()[last]));
    }
    assert forall|j: u64| #[trigger] n.contains_key(j) && n[j].kind == kind implies n[j].slot
        < b2.len_spec() && b2.owners()[n[j].slot as int] == j && b2.records()[n[j].slot as int]
        == b.records()[m[j].slot as int] by {
        assert(m.contains_key(j) && j != x);
        let t = m[j].slot as int;
        assert(b.owners()[t] == j);
        if s < last && j == mv {
        } else {
            assert(t != s);
            assert(t != last);
        }
    }
    assert forall|i: int| 0 <= i < b2.len_spec() implies n.contains_key(#[trigger] b2.owners()[i])
        && n[b2.owners()[i]].kind == kind && n[b2.owners()[i]].slot == i by {
        if i == s {
            assert(b2.owners()[i] == mv);
            assert(mv != x);
        } else {
            let o = b.owners()[i];
            assert(m.contains_key(o) && m[o].slot == i);
            assert(b2.owners()[i] == o);
            assert(o != x);
            assert(o != mv);
        }
    }
}

/// Dropping an element of another shape keeps a batch matching.
proof fn lemma_other_matches(
    m: Map<u64, Node>,
    n: Map<u64, Node>,
    x: u64,
    c: BatchRenderer,
    kind: ShapeKind,
)
    requires
        batch_matches(m, c, kind),
        m.contains_key(x),
        m[x].kind != kind,
        dropped(m, n, x),
        forall|j: u64| #[trigger] n.contains_key(j) && n[j].kind == kind ==> n[j].slot == m[j].slot,
    ensures
        batch_matches(n, c, kind),
{
    reveal(batch_matches);
    assert forall|i: int| 0 <= i < c.len_spec() implies n.contains_key(#[trigger] c.owners()[i])
        && n[c.owners()[i]].kind == kind && n[c.owners()[i]].slot == i by {
        assert(m.contains_key(c.owners()[i]));
    }
}

impl ElementManager {
    /// Removes the live element `x` from the map and frees its instance slot.
    #[verifier::rlimit(40)]
    fn drop_element(&mut self, x: u64)
        requires
            contents_wf(old(self).nodes()),
            old(self).is_live(x),
            batch_matches(old(self).nodes(), old(self).box_batch(), ShapeKind::Box),
            batch_matches(old(self).nodes(), old(self).image_batch(), ShapeKind::Image),
        ensures
            contents_wf(final(self).nodes()),
            dropped(old(self).nodes(), final(self).nodes(), x),
            batch_matches(final(self).nodes(), final(self).box_batch(), ShapeKind::Box),
            batch_matches(final(self).nodes(), final(self).image_batch(), ShapeKind::Image),
            forall|j: u64|
                #[trigger] final(self).nodes().contains_key(j) && final(self).nodes()[j].kind
                    == ShapeKind::Box ==> final(self).box_batch().records()[final(self).nodes()[j].slot as int]
                    == old(self).box_batch().records()[old(self).nodes()[j].slot as int],
            forall|j: u64|
                #[trigger] final(self).nodes().contains_key(j) && final(self).nodes()[j].kind
                    == ShapeKind::Image ==> final(self).image_batch().records()[final(self).nodes()[j].slot as int]
                    == old(self).image_batch().records()[old(self).nodes()[j].slot as int],
            final(self).root_keys() == old(self).root_keys(),
            final(self).stamps() == old(self).stamps(),
            final(self).next_stamp() == old(self).next_stamp(),
    {
        let ghost m = self.nodes();
        let ghost ob = self.boxes;
        let ghost oi = self.images;
        proof {
            lemma_batch_owners_live(m, ob, ShapeKind::Box);
            lemma_batch_owners_live(m, oi, ShapeKind::Image);
            reveal(batch_matches);
        }
        let node = map_remove(&mut self.elements, x).unwrap();
        proof {
            assert(self.nodes().dom() =~= m.dom().remove(x));
        }
        match node.kind {
            ShapeKind::Box => {
                proof {
                    assert(ob.owners()[node.slot as int] == x);
                    if node.slot + 1 < ob.len_spec() {
                        assert(m.contains_key(ob.owners().last()));
                        assert(ob.owners().last() != x) by {
                            assert(ob.owners()[ob.len_spec() - 1] == ob.owners().last());
                        }
                    }
                }
                release_slot(&mut self.boxes, &mut self.elements, node.slot);
                proof {
                    assert(self.nodes().dom() =~= m.dom().remove(x));
                    lemma_release_matches(m, self.nodes(), x, ob, self.boxes, ShapeKind::Box);
                    lemma_other_matches(m, self.nodes(), x, oi, ShapeKind::Image);
                }
            },
            ShapeKind::Image => {
                proof {
                    assert(oi.owners()[node.slot as int] == x);
                    if node.slot + 1 < oi.len_spec() {
                        assert(m.contains_key(oi.owners().last()));
                        assert(oi.owners().last() != x) by {
                            assert(oi.owners()[oi.len_spec() - 1] == oi.owners().last());
                        }
                    }
                }
                release_slot(&mut self.images, &mut self.elements, node.slot);
                proof {
                    assert(self.nodes().dom() =~= m.dom().remove(x));
                    lemma_release_matches(m, self.nodes(), x, oi, self.images, ShapeKind::Image);
                    lemma_other_matches(m, self.nodes(), x, ob, ShapeKind::Box);
                }
            },
            ShapeKind::Text => {
                proof {
                    lemma_other_matches(m, self.nodes(), x, ob, ShapeKind::Box);
                    lemma_other_matches(m, self.nodes(), x, oi, ShapeKind::Image);
                }
            },
        }
    }
}

/// The children list of `j` after `key` is detached from its parent.
pub open spec fn children_after_detach(o: ElementManager, key: u64, j: u64) -> Seq<u64> {
    if o.nodes()[key].parent == Some(j) {
        remove_key(o.nodes()[j].children@, key)
    } else {
        o.nodes()[j].children@
    }
}

/// The root list after `key` is detached.
pub open spec fn roots_after_detach(o: ElementManager, key: u64) -> Seq<u64> {
    if o.nodes()[key].parent is None {
        remove_key(o.root_keys(), key)
    } else {
        o.root_keys()
    }
}

/// What removing `key` does: a live element goes together with its whole
/// subtree; it leaves its parent's child list (or the roots); the other
/// elements keep their links, style, shape and instance. A stale key changes
/// nothing.
pub open spec fn remove_outcome(o: ElementManager, f: ElementManager, key: u64, r: Result<usize, StructuralError>) -> bool {
    &&& (r is Ok <==> o.is_live(key))
    &&& match r {
        Err(e) => e == StructuralError::StaleKey(key) && f == o,
        Ok(n) => {
            &&& f.nodes().dom() == o.nodes().dom().difference(subtree(o, key))
            &&& n == subtree(o, key).len()
            &&& forall|j: u64| #[trigger]
                f.nodes().contains_key(j) ==> f.nodes()[j].parent == o.nodes()[j].parent
                    && f.nodes()[j].style == o.nodes()[j].style && f.nodes()[j].kind
                    == o.nodes()[j].kind && f.nodes()[j].children@ == children_after_detach(
                    o,
                    key,
                    j,
                )
            &&& f.root_keys() == roots_after_detach(o, key)
            &&& forall|j: u64|
                #[trigger] f.nodes().contains_key(j) && f.nodes()[j].kind == ShapeKind::Box
                    ==> f.box_batch().records()[f.nodes()[j].slot as int]
                    == o.box_batch().records()[o.nodes()[j].slot as int]
            &&& forall|j: u64|
                #[trigger] f.nodes().contains_key(j) && f.nodes()[j].kind == ShapeKind::Image
                    ==> f.image_batch().records()[f.nodes()[j].slot as int]
                    == o.image_batch().records()[o.nodes()[j].slot as int]
        },
    }
}

impl ElementManager {
    /// Survivors keep a surviving parent that still lists them.
    #[verifier::rlimit(40)]
    proof fn lemma_remove_parents(o: ElementManager, f: ElementManager, key: u64)
        requires
            o.wf(),
            o.is_live(key),
            forall|j: u64| f.nodes().contains_key(j) <==> (o.nodes().contains_key(j) && !subtree(o, key).contains(j)),
            forall|j: u64| #[trigger]
                f.nodes().contains_key(j) ==> f.nodes()[j].parent == o.nodes()[j].parent
                    && f.nodes()[j].style == o.nodes()[j].style && f.nodes()[j].kind
                    == o.nodes()[j].kind && f.nodes()[j].children@ == children_after_detach(
                    o,
                    key,
                    j,
                ),
            f.root_keys() == roots_after_detach(o, key),
            f.stamps() == o.stamps(),
        ensures
            f.parents_wf(),
    {
        let on = o.nodes();
        let st = o.stamps();
        assert forall|j: u64| #[trigger] f.nodes().contains_key(j) implies match f.nodes()[j].parent {
            Some(q) => f.nodes().contains_key(q) && f.nodes()[q].children@.contains(j)
                && f.stamps()[q] < f.stamps()[j],
            None => f.root_keys().contains(j),
        } by {
            assert(on.contains_key(j) && !subtree(o, key).contains(j));
            assert(!in_subtree(on, st, key, j));
            assert(j != key);
            match on[j].parent {
                Some(q) => {
                    assert(on.contains_key(q));
                    assert(!in_subtree(on, st, key, q));
                    assert(!subtree(o, key).contains(q));
                    lemma_remove_key(on[q].children@, key);
                },
                None => {
                    lemma_remove_key(o.root_keys(), key);
                },
            }
        }
    }

    /// Survivors' children survive and still point back at them.
    #[verifier::rlimit(40)]
    proof fn lemma_remove_children(o: ElementManager, f: ElementManager, key: u64)
        requires
            o.wf(),
            o.is_live(key),
            forall|j: u64| f.nodes().contains_key(j) <==> (o.nodes().contains_key(j) && !subtree(o, key).contains(j)),
            forall|j: u64| #[trigger]
                f.nodes().contains_key(j) ==> f.nodes()[j].parent == o.nodes()[j].parent
                    && f.nodes()[j].style == o.nodes()[j].style && f.nodes()[j].kind
                    == o.nodes()[j].kind && f.nodes()[j].children@ == children_after_detach(
                    o,
                    key,
                    j,
                ),
            f.root_keys() == roots_after_detach(o, key),
            f.stamps() == o.stamps(),
        ensures
            f.children_wf(),
    {
        let on = o.nodes();
        let st = o.stamps();
        assert forall|j: u64| #[trigger] f.nodes().contains_key(j) implies f.nodes()[j].children@.no_duplicates() by {
            lemma_remove_key(on[j].children@, key);
        }
        assert forall|j: u64, i: int|
            f.nodes().contains_key(j) && 0 <= i < f.nodes()[j].children@.len()
                implies f.nodes().contains_key(#[trigger] f.nodes()[j].children@[i])
                && f.nodes()[f.nodes()[j].children@[i]].parent == Some(j) by {
            let c = f.nodes()[j].children@[i];
            assert(f.nodes()[j].children@.contains(c));
            lemma_remove_key(on[j].children@, key);
            assert(on[j].children@.contains(c));
            let k = choose|k: int| 0 <= k < on[j].children@.len() && on[j].children@[k] == c;
            assert(on.contains_key(on[j].children@[k]));
            assert(on[c].parent == Some(j));
            assert(!subtree(o, key).contains(j));
            assert(!in_subtree(on, st, key, j));
            if c == key {
                assert(on[key].parent == Some(j));
                assert(!remove_key(on[j].children@, key).contains(key));
            }
            assert(!in_subtree(on, st, key, c));
        }
    }

    /// The remaining roots survive.
    #[verifier::rlimit(40)]
    proof fn lemma_remove_roots(o: ElementManager, f: ElementManager, key: u64)
        requires
            o.wf(),
            o.is_live(key),
            forall|j: u64| f.nodes().contains_key(j) <==> (o.nodes().contains_key(j) && !subtree(o, key).contains(j)),
            forall|j: u64| #[trigger]
                f.nodes().contains_key(j) ==> f.nodes()[j].parent == o.nodes()[j].parent
                    && f.nodes()[j].style == o.nodes()[j].style && f.nodes()[j].kind
                    == o.nodes()[j].kind && f.nodes()[j].children@ == children_after_detach(
                    o,
                    key,
                    j,
                ),
            f.root_keys() == roots_after_detach(o, key),
            f.stamps() == o.stamps(),
        ensures
            f.roots_wf(),
    {
        let on = o.nodes();
        let st = o.stamps();
        lemma_remove_key(o.root_keys(), key);
        assert forall|i: int| 0 <= i < f.root_keys().len() implies f.nodes().contains_key(
            #[trigger] f.root_keys()[i],
        ) && f.nodes()[f.root_keys()[i]].parent is None by {
            let rk = f.root_keys()[i];
            assert(f.root_keys().contains(rk));
            assert(o.root_keys().contains(rk));
            let k = choose|k: int| 0 <= k < o.root_keys().len() && o.root_keys()[k] == rk;
            assert(on.contains_key(o.root_keys()[k]));
            if rk == key {
                assert(on[key].parent is None);
            }
            assert(!in_subtree(on, st, key, rk));
        }
    }

    /// Drops every element of `dd`, freeing their instance slots; the other
    /// elements keep their links and instances.
    #[verifier::rlimit(40)]
    fn drop_all(&mut self, dd: &Vec<u64>)
        requires
            contents_wf(old(self).nodes()),
            batch_matches(old(self).nodes(), old(self).box_batch(), ShapeKind::Box),
            batch_matches(old(self).nodes(), old(self).image_batch(), ShapeKind::Image),
            dd@.no_duplicates(),
            forall|x: u64| dd@.contains(x) ==> old(self).is_live(x),
        ensures
            contents_wf(final(self).nodes()),
            forall|j: u64|
                final(self).nodes().contains_key(j) <==> (old(self).nodes().contains_key(j)
                    && !dd@.contains(j)),
            forall|j: u64| #[trigger]
                final(self).nodes().contains_key(j) ==> final(self).nodes()[j].parent
                    == old(self).nodes()[j].parent && final(self).nodes()[j].style
                    == old(self).nodes()[j].style && final(self).nodes()[j].kind
                    == old(self).nodes()[j].kind && final(self).nodes()[j].children@
                    == old(self).nodes()[j].children@,
            batch_matches(final(self).nodes(), final(self).box_batch(), ShapeKind::Box),
            batch_matches(final(self).nodes(), final(self).image_batch(), ShapeKind::Image),
            forall|j: u64|
                #[trigger] final(self).nodes().contains_key(j) && final(self).nodes()[j].kind
                    == ShapeKind::Box ==> final(self).box_batch().records()[final(self).nodes()[j].slot as int]
                    == old(self).box_batch().records()[old(self).nodes()[j].slot as int],
            forall|j: u64|
                #[trigger] final(self).nodes().contains_key(j) && final(self).nodes()[j].kind
                    == ShapeKind::Image ==> final(self).image_batch().records()[final(self).nodes()[j].slot as int]
                    == old(self).image_batch().records()[old(self).nodes()[j].slot as int],
            final(self).root_keys() == old(self).root_keys(),
            final(self).stamps() == old(self).stamps(),
            final(self).next_stamp() == old(self).next_stamp(),
    {
        let mut i: usize = 0;
        while i < dd.len()
            invariant
                dd@.no_duplicates(),
                forall|x: u64| dd@.contains(x) ==> old(self).is_live(x),
                i <= dd@.len(),
                contents_wf(self.nodes()),
                forall|j: u64|
                    self.nodes().contains_key(j) <==> (old(self).nodes().contains_key(j)
                        && !dd@.subrange(0, i as int).contains(j)),
                forall|j: u64| #[trigger]
                    self.nodes().contains_key(j) ==> self.nodes()[j].parent == old(self).nodes()[j].parent
                        && self.nodes()[j].style == old(self).nodes()[j].style && self.nodes()[j].kind
                        == old(self).nodes()[j].kind && self.nodes()[j].children@
                        == old(self).nodes()[j].children@,
                batch_matches(self.nodes(), self.box_batch(), ShapeKind::Box),
                batch_matches(self.nodes(), self.image_batch(), ShapeKind::Image),
                forall|j: u64|
                    #[trigger] self.nodes().contains_key(j) && self.nodes()[j].kind == ShapeKind::Box
                        ==> self.box_batch().records()[self.nodes()[j].slot as int]
                        == old(self).box_batch().records()[old(self).nodes()[j].slot as int],
                forall|j: u64|
                    #[trigger] self.nodes().contains_key(j) && self.nodes()[j].kind == ShapeKind::Image
                        ==> self.image_batch().records()[self.nodes()[j].slot as int]
                        == old(self).image_batch().records()[old(self).nodes()[j].slot as int],
                self.root_keys() == old(self).root_keys(),
                self.stamps() == old(self).stamps(),
                self.next_stamp() == old(self).next_stamp(),
            decreases dd@.len() - i,
        {
            let x = dd[i];
            proof {
                assert(dd@.contains(x));
                assert(!dd@.subrange(0, i as int).contains(x)) by {
                    if dd@.subrange(0, i as int).contains(x) {
                        let k = choose|k: int| 0 <= k < i && dd@.subrange(0, i as int)[k] == x;
                        assert(dd@[k] == dd@[i as int]);
                    }
                }
            }
            self.drop_element(x);
            proof {
                assert forall|j: u64|
                    self.nodes().contains_key(j) <==> (old(self).nodes().contains_key(j)
                        && !dd@.subrange(0, i as int + 1).contains(j)) by {
                    let s0 = dd@.subrange(0, i as int);
                    let s1 = dd@.subrange(0, i as int + 1);
                    assert(s1 =~= s0.push(x));
                    if s1.contains(j) && j != x {
                        let k = choose|k: int| 0 <= k < s1.len() && s1[k] == j;
                        assert(s0[k] == j);
                    }
                    if s0.contains(j) {
                        let k = choose|k: int| 0 <= k < s0.len() && s0[k] == j;
                        assert(s1[k] == j);
                    }
                    assert(s1[i as int] == x);
                }
            }
            i = i + 1;
        }
        proof {
            assert(dd@.subrange(0, dd@.len() as int) =~= dd@);
        }
    }

    /// Removes `key` together with every element below it, and frees their
    /// instance slots. Returns the number of elements removed.
    #[verifier::rlimit(80)]
    pub fn remove(&mut self, key: u64) -> (r: Result<usize, StructuralError>)
        requires
            old(self).wf(),
        ensures
            final(self).wf(),
            remove_outcome(*old(self), *final(self), key, r),
    {
        if !key_shaped(key) {
            return Err(StructuralError::StaleKey(key));
        }
        let parent = match map_get(&self.elements, key) {
            None => {
                return Err(StructuralError::StaleKey(key));
            },
            Some(node) => node.parent,
        };
        let doomed = self.collect_subtree(key);
        let ghost o = *self;
        match parent {
            Some(p) => {
                let placeholder = Node {
                    parent: None,
                    children: Vec::new(),
                    style: 0,
                    kind: ShapeKind::Text,
                    slot: 0,
                };
                let mut pn = map_replace(&mut self.elements, p, placeholder);
                pn.children = without(&pn.children, key);
                map_replace(&mut self.elements, p, pn);
            },
            None => {
                self.roots = without(&self.roots, key);
            },
        }
        proof {
            reveal(batch_matches);
            assert(self.nodes().dom() =~= o.nodes().dom());
            assert forall|j: u64| #[trigger] self.nodes().contains_key(j) implies self.nodes()[j].parent == o.nodes()[j].parent
                && self.nodes()[j].style == o.nodes()[j].style && self.nodes()[j].kind
                == o.nodes()[j].kind && self.nodes()[j].slot == o.nodes()[j].slot
                && self.nodes()[j].children@ == children_after_detach(o, key, j) by {}
        }
        let ghost d = *self;
        proof {
            lemma_batch_matches_same_owners(d.nodes(), d.boxes, d.boxes, ShapeKind::Box);
        }
        self.drop_all(&doomed);
        proof {
            let f = *self;
            assert forall|j: u64| f.nodes().contains_key(j) <==> (o.nodes().contains_key(j)
                && !subtree(o, key).contains(j)) by {
                assert(d.nodes().contains_key(j) == o.nodes().contains_key(j));
                assert(doomed@.contains(j) == subtree(o, key).contains(j));
            }
            Self::lemma_remove_parents(o, f, key);
            Self::lemma_remove_children(o, f, key);
            Self::lemma_remove_roots(o, f, key);
            assert(f.nodes().dom() =~= o.nodes().dom().difference(subtree(o, key)));
            doomed@.unique_seq_to_set();
            assert(doomed@.to_set() =~= subtree(o, key));
        }
        Ok(doomed.len())
    }
}

/// Removing a live element takes it off its parent's child list and removes
/// its whole subtree with it: afterwards no element of that subtree is live,
/// no other element has gone, and the number of live elements has dropped by
/// exactly the size of the subtree: the element itself and the elements that
/// `get_children_of` lists below it.
#[verifier::rlimit(40)]
pub proof fn lemma_remove_counts(before: ElementManager, after: ElementManager, key: u64, n: usize)
    requires
        before.wf(),
        remove_outcome(before, after, key, Ok(n)),
    ensures
        after.nodes().len() + n == before.nodes().len(),
        forall|x: u64| subtree(before, key).contains(x) ==> !after.is_live(x),
        forall|x: u64|
            before.is_live(x) && !subtree(before, key).contains(x) ==> after.is_live(x),
        before.nodes()[key].parent matches Some(p) ==> after.is_live(p)
            && !after.nodes()[p].children@.contains(key),
        before.nodes()[key].parent is None ==> !after.root_keys().contains(key),
        n == 1 + crate::tree::walk(
            before.nodes(),
            before.nodes()[key].children@,
            before.next_stamp(),
        ).len(),
{
    crate::tree::lemma_children_of_is_subtree(before, key);
    let dom = before.nodes().dom();
    let sub = subtree(before, key);
    assert(sub.subset_of(dom));
    vstd::set_lib::lemma_set_difference_len(dom, sub);
    vstd::set_lib::lemma_len_subset(sub, dom);
    assert(dom.intersect(sub) =~= sub);
    match before.nodes()[key].parent {
        Some(p) => {
            assert(before.nodes().contains_key(p));
            if sub.contains(p) {
                crate::tree::lemma_subtree_stamp(before, key, p);
            }
            lemma_remove_key(before.nodes()[p].children@, key);
        },
        None => {
            lemma_remove_key(before.root_keys(), key);
        },
    }
}

proof fn lemma_live_only_distinct(nodes: Map<u64, Node>, keys: Seq<u64>)
    requires
        keys.no_duplicates(),
    ensures
        live_only(nodes, keys).no_duplicates(),
        forall|k: u64| live_only(nodes, keys).contains(k) ==> keys.contains(k),
    decreases keys.len(),
{
    if keys.len() > 0 {
        let f = keys.drop_last();
        let lf = live_only(nodes, f);
        lemma_live_only_distinct(nodes, f);
        assert forall|k: u64| f.contains(k) implies keys.contains(k) by {
            let i = choose|i: int| 0 <= i < f.len() && f[i] == k;
            assert(keys[i] == k);
        }
        assert(keys.contains(keys.last())) by {
            assert(keys[keys.len() - 1] == keys.last());
        }
        if nodes.contains_key(keys.last()) {
            let r = lf.push(keys.last());
            assert(live_only(nodes, keys) =~= r);
            assert(!lf.contains(keys.last())) by {
                if lf.contains(keys.last()) {
                    assert(f.contains(keys.last()));
                    let i = choose|i: int| 0 <= i < f.len() && f[i] == keys.last();
                    assert(keys[i] == keys[keys.len() - 1]);
                }
            }
            assert forall|k: u64| r.contains(k) implies keys.contains(k) by {
                if k != keys.last() {
                    let i = choose|i: int| 0 <= i < r.len() && r[i] == k;
                    assert(lf[i] == k);
                }
            }
            assert forall|i: int, j: int| 0 <= i < r.len() && 0 <= j < r.len() && i != j
                implies r[i] != r[j] by {
                if i == lf.len() {
                    assert(lf.contains(r[j]));
                } else if j == lf.len() {
                    assert(lf.contains(r[i]));
                }
            }
        } else {
            assert(live_only(nodes, keys) =~= lf);
        }
    }
}

impl ElementManager {
    /// Replaces the instance of the live box or image `key`, as its update
    /// hook does when the values it shows change.
    #[verifier::rlimit(40)]
    pub fn update_instance(&mut self, key: u64, record: InstanceRecord) -> (r: Result<(), StructuralError>)
        requires
            old(self).wf(),
        ensures
            final(self).wf(),
            final(self).nodes() == old(self).nodes(),
            final(self).root_keys() == old(self).root_keys(),
            r is Ok <==> old(self).is_live(key) && old(self).nodes()[key].kind != ShapeKind::Text,
            r is Ok ==> match old(self).nodes()[key].kind {
                ShapeKind::Box => {
                    &&& final(self).box_batch().records() == old(self).box_batch().records().update(
                        old(self).nodes()[key].slot as int,
                        record,
                    )
                    &&& final(self).box_batch().owners() == old(self).box_batch().owners()
                    &&& final(self).image_batch() == old(self).image_batch()
                },
                _ => {
                    &&& final(self).image_batch().records() == old(self).image_batch().records().update(
                        old(self).nodes()[key].slot as int,
                        record,
                    )
                    &&& final(self).image_batch().owners() == old(self).image_batch().owners()
                    &&& final(self).box_batch() == old(self).box_batch()
                },
            },
            r is Err ==> *final(self) == *old(self) && r->Err_0 == if old(self).is_live(key) {
                StructuralError::NoInstance(key)
            } else {
                StructuralError::StaleKey(key)
            },
    {
        if !key_shaped(key) {
            return Err(StructuralError::StaleKey(key));
        }
        let (kind, slot) = match map_get(&self.elements, key) {
            None => {
                return Err(StructuralError::StaleKey(key));
            },
            Some(node) => (node.kind, node.slot),
        };
        let ghost old_self = *self;
        proof {
            reveal(batch_matches);
        }
        match kind {
            ShapeKind::Box => {
                let _ = self.boxes.update(slot, record);
            },
            ShapeKind::Image => {
                let _ = self.images.update(slot, record);
            },
            ShapeKind::Text => {
                return Err(StructuralError::NoInstance(key));
            },
        }
        proof {
            lemma_batch_matches_same_owners(old_self.nodes(), old_self.boxes, self.boxes, ShapeKind::Box);
            lemma_batch_matches_same_owners(old_self.nodes(), old_self.images, self.images, ShapeKind::Image);
            Self::lemma_wf_same_tree(old_self, *self);
        }
        Ok(())
    }
}

} // verus!
