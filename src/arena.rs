use vstd::prelude::*;
use slotmap::{DefaultKey, Key, KeyData, SlotMap};

verus! {

/// The shape an element draws.
#[derive(Clone, Copy, Debug, PartialEq, Eq, Structural)]
pub enum ShapeKind {
    Box,
    Image,
    Text,
}

/// One element of the tree. `slot` is its instance slot in the batch of its
/// shape; text elements have no batch and keep 0 there.
#[derive(Debug)]
pub struct Node {
    pub parent: Option<u64>,
    pub children: Vec<u64>,
    pub style: u64,
    pub kind: ShapeKind,
    pub slot: u64,
}

/// The slot map that owns the elements. It stands behind the functions
/// below, which state what each of its operations does to its contents.
#[verifier::external_body]
pub struct NodeMap {
    inner: SlotMap<DefaultKey, Node>,
}

/// Largest number of live elements: a slot map holds fewer than `u32::MAX`.
pub const MAX_ELEMENTS: usize = 4294967294;

/// The live elements of a slot map, keyed by the 64-bit form of their keys
/// (`KeyData::as_ffi`).
pub uninterp spec fn slot_contents(m: NodeMap) -> Map<u64, Node>;

/// Whether `k` has the shape of a live key's 64-bit form: its upper half, the
/// slot version, is odd.
pub open spec fn is_key(k: u64) -> bool {
    (k / 0x1_0000_0000) % 2 == 1
}

/// Whether the contents of a slot map are finite and keyed by well-shaped keys.
pub open spec fn contents_wf(c: Map<u64, Node>) -> bool {
    &&& c.dom().finite()
    &&& forall|k: u64| #[trigger] c.contains_key(k) ==> is_key(k)
}

/// Whether `k` has the shape of a live key's 64-bit form.
pub fn key_shaped(k: u64) -> (r: bool)
    ensures
        r == is_key(k),
{
    (k / 0x1_0000_0000) % 2 == 1
}

/// Relies on `SlotMap::new`: a new map is empty.
#[verifier::external_body]
pub(crate) fn map_new() -> (r: NodeMap)
    ensures
        slot_contents(r).dom() == Set::<u64>::empty(),
{
    NodeMap { inner: SlotMap::new() }
}

/// Relies on `SlotMap::len`: the number of live elements.
#[verifier::external_body]
pub(crate) fn map_len(m: &NodeMap) -> (r: usize)
    ensures
        slot_contents(*m).dom().finite() ==> r == slot_contents(*m).len(),
{
    m.inner.len()
}

/// Relies on `SlotMap::insert`: the value is stored under a key that no live
/// element holds, whose version is odd; it panics only when the map is full.
#[verifier::external_body]
pub(crate) fn map_insert(m: &mut NodeMap, v: Node) -> (r: u64)
    requires
        contents_wf(slot_contents(*old(m))),
        slot_contents(*old(m)).len() < MAX_ELEMENTS,
    ensures
        !slot_contents(*old(m)).contains_key(r),
        is_key(r),
        slot_contents(*final(m)) == slot_contents(*old(m)).insert(r, v),
{
    m.inner.insert(v).data().as_ffi()
}

/// Relies on `SlotMap::get`: the value stored under a live key, and `None`
/// for any other well-shaped key.
#[verifier::external_body]
pub(crate) fn map_get(m: &NodeMap, k: u64) -> (r: Option<&Node>)
    requires
        is_key(k),
    ensures
        r is Some <==> slot_contents(*m).contains_key(k),
        r is Some ==> *r->Some_0 == slot_contents(*m)[k],
{
    m.inner.get(KeyData::from_ffi(k).into())
}

/// Relies on `SlotMap::remove`: a live key's value is taken out; any other
/// well-shaped key changes nothing.
#[verifier::external_body]
pub(crate) fn map_remove(m: &mut NodeMap, k: u64) -> (r: Option<Node>)
    requires
        is_key(k),
    ensures
        r is Some <==> slot_contents(*old(m)).contains_key(k),
        r is Some ==> r->Some_0 == slot_contents(*old(m))[k],
        slot_contents(*final(m)) == slot_contents(*old(m)).remove(k),
{
    m.inner.remove(KeyData::from_ffi(k).into())
}

/// Relies on `SlotMap`'s `IndexMut`: the value under a live key is swapped
/// for `v`, and the old one is returned.
#[verifier::external_body]
pub(crate) fn map_replace(m: &mut NodeMap, k: u64, v: Node) -> (r: Node)
    requires
        is_key(k),
        slot_contents(*old(m)).contains_key(k),
    ensures
        r == slot_contents(*old(m))[k],
        slot_contents(*final(m)) == slot_contents(*old(m)).insert(k, v),
{
    std::mem::replace(&mut m.inner[KeyData::from_ffi(k).into()], v)
}

} // verus!
