use vstd::prelude::*;

verus! {

/// The capability set a tile alphabet must supply: enumeration, integer
/// identity, pairwise bias weights, the adjacency relation and a fallback
/// tile. The engine validates at construction that `to_usize` maps the
/// `i`-th variant to `i`, and treats the bias of a disallowed pair as zero
/// whatever `bias` returns.
pub trait WFCState: Copy + Sized {
    /// All the possible variants of `Self`, in a fixed order that must be
    /// the same on every call within one run.
    fn get_variants() -> Vec<Self>;

    /// The integer identity of a tile; identities must be unique and must
    /// enumerate `[0, variant count)` in the order of `get_variants`.
    fn to_usize(self) -> usize;

    /// Bias weight toward resolving `o` near a cell already resolved to
    /// `self`; zero means never adjacent.
    fn bias(&self, o: &Self) -> usize;

    /// The tiles allowed directly adjacent to `self`.
    fn possible_neighbours(&self) -> Vec<Self>;

    /// The tile substituted for a cell that could not be resolved.
    fn none_option() -> Self;
}

} // verus!
