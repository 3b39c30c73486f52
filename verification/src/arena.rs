//! Oscillator storage: the `ordex` generational arena, seen through its
//! contents as a map from node handles to node states.

use ordex::prelude::Index;
use ordex::prelude::OrdexArena;
use vstd::prelude::*;

verus! {

/// The state of one oscillator: its phase and its innate angular velocity,
/// both in BAM units.
#[derive(Clone, Copy, Debug, Default, PartialEq, Eq)]
pub struct NodeState {
    pub theta: u32,
    pub d_theta: u32,
}

/// A generational handle to a node in the arena: the slot it occupies and
/// the generation of that slot when the node was inserted.
#[derive(Clone, Copy, Debug, PartialEq, Eq, Hash)]
pub struct NodeId {
    slot: u32,
    generation: u32,
}

impl NodeId {
    /// Generations handed out by the arena start at one and are never zero.
    #[verifier::type_invariant]
    pub closed spec fn generation_nonzero(self) -> bool {
        self.generation != 0
    }

    pub closed spec fn slot_spec(self) -> u32 {
        self.slot
    }

    pub closed spec fn generation_spec(self) -> u32 {
        self.generation
    }

    /// The arena slot of this handle.
    pub fn slot(&self) -> (r: u32)
        ensures
            r == self.slot_spec(),
    {
        self.slot
    }

    /// The generation of this handle (never zero).
    pub fn generation(&self) -> (r: u32)
        ensures
            r == self.generation_spec(),
            r != 0,
    {
        proof {
            use_type_invariant(self);
        }
        self.generation
    }

    /// A 64-bit key that packs slot and generation; distinct handles have
    /// distinct keys.
    pub(crate) fn key(&self) -> (r: u64)
        ensures
            r == handle_key(*self),
    {
        self.slot as u64 * 0x1_0000_0000 + self.generation as u64
    }

    /// Two handles are equal exactly when slot and generation agree.
    pub proof fn lemma_eq_by_parts(a: NodeId, b: NodeId)
        requires
            a.slot_spec() == b.slot_spec(),
            a.generation_spec() == b.generation_spec(),
        ensures
            a == b,
    {
    }
}

/// The packed 64-bit key of a handle: slot in the high half, generation in
/// the low half.
pub open spec fn handle_key(id: NodeId) -> int {
    id.slot_spec() * 0x1_0000_0000 + id.generation_spec()
}

/// Packing is injective: equal keys come from equal handles.
pub proof fn lemma_handle_key_injective(a: NodeId, b: NodeId)
    requires
        handle_key(a) == handle_key(b),
    ensures
        a == b,
{
    NodeId::lemma_eq_by_parts(a, b);
}

#[verifier::external_type_specification]
#[verifier::external_body]
#[verifier::reject_recursive_types(T)]
pub struct ExOrdexArena<T>(OrdexArena<T>);

/// The live contents of an `ordex` arena of node states: each handle whose
/// slot is occupied with the handle's generation, mapped to the stored state.
pub uninterp spec fn arena_nodes(arena: OrdexArena<NodeState>) -> Map<NodeId, NodeState>;

/// Calls `OrdexArena::new`, which builds an arena with no slots: its
/// contents are empty.
#[verifier::external_body]
pub(crate) fn arena_new() -> (r: OrdexArena<NodeState>)
    ensures
        arena_nodes(r).dom().is_empty(),
{
    OrdexArena::new()
}

/// Calls `OrdexArena::insert`. It reuses the head of the free list with its
/// generation advanced, or appends a new slot with generation one, so the
/// returned handle was not live before and now maps to `value`; all other
/// entries are kept. It panics only when every one of the `2^32` slots is
/// occupied, which `requires` leaves out.
#[verifier::external_body]
pub(crate) fn arena_insert(arena: &mut OrdexArena<NodeState>, value: NodeState) -> (r: NodeId)
    requires
        arena_nodes(*old(arena)).dom().finite(),
        arena_nodes(*old(arena)).dom().len() < 0x1_0000_0000,
    ensures
        !arena_nodes(*old(arena)).dom().contains(r),
        arena_nodes(*final(arena)) == arena_nodes(*old(arena)).insert(r, value),
{
    let index = arena.insert(value);
    NodeId { slot: index.index, generation: index.generation.get() }
}

/// Calls `OrdexArena::get`: the stored state when the handle is live (its
/// slot is occupied with its generation), else `None`. Handles never carry
/// generation zero, so the `ordex` index is always built.
#[verifier::external_body]
pub(crate) fn arena_get(arena: &OrdexArena<NodeState>, id: NodeId) -> (r: Option<NodeState>)
    ensures
        r == (if arena_nodes(*arena).dom().contains(id) {
            Some(arena_nodes(*arena)[id])
        } else {
            None
        }),
{
    let index = Index { index: id.slot, generation: std::num::NonZeroU32::new(id.generation).unwrap() };
    arena.get(index).copied()
}

/// Calls `OrdexArena::get_mut`: a mutable reference to the stored state when
/// the handle is live, else `None`; what is written through the reference is
/// what the arena then holds for that handle, and nothing else changes.
/// Handles never carry generation zero, so the `ordex` index is always built.
#[verifier::external_body]
pub(crate) fn arena_get_mut(arena: &mut OrdexArena<NodeState>, id: NodeId) -> (r: Option<&mut NodeState>)
    ensures
        r is Some <==> arena_nodes(*old(arena)).dom().contains(id),
        r is None ==> arena_nodes(*final(arena)) == arena_nodes(*old(arena)),
        r matches Some(s) ==> *s == arena_nodes(*old(arena))[id],
        r matches Some(s) ==> arena_nodes(*final(arena)) == arena_nodes(*old(arena)).insert(id, *final(s)),
{
    let index = Index { index: id.slot, generation: std::num::NonZeroU32::new(id.generation).unwrap() };
    arena.get_mut(index)
}

} // verus!
