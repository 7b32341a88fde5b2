//! Elements as the reader hands them to the mesh: a kind, node indices and an optional family.
use crate::kinds::ElementKind;
use vstd::prelude::*;

verus! {

/// One element to add to a mesh, in the order in which it is to be added.
#[derive(Clone, Debug, PartialEq, Eq)]
pub struct MeshCell {
    pub kind: ElementKind,
    /// 0-based node indices.
    pub nodes: Vec<usize>,
    /// Boundary-condition family the element belongs to, when it has one.
    pub family: Option<usize>,
}

/// Mathematical view of a mesh cell: kind, node sequence, family.
pub type CellView = (ElementKind, Seq<usize>, Option<usize>);

impl View for MeshCell {
    type V = CellView;

    open spec fn view(&self) -> CellView {
        (self.kind, self.nodes@, self.family)
    }
}

/// Views of a sequence of mesh cells.
pub open spec fn cells_view(cells: Seq<MeshCell>) -> Seq<CellView> {
    cells.map_values(|c: MeshCell| c@)
}

/// Pushing a cell extends the view by that cell's view.
pub proof fn lemma_cells_view_push(cells: Seq<MeshCell>, c: MeshCell)
    ensures
        cells_view(cells.push(c)) == cells_view(cells).push(c@),
{
    assert(cells_view(cells.push(c)) =~= cells_view(cells).push(c@));
}

} // verus!
