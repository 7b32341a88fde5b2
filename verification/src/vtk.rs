//! The VTKHDF `UnstructuredGrid` layout: cell types, offsets and a flat
//! connectivity array.
use crate::cells::{cells_view, lemma_cells_view_push, CellView, MeshCell};
use crate::element_write::{cells_of, CellBlock};
use crate::kinds::{into_vtk_u8, spec_vtk_code, spec_vtk_kind, to_element_type, vtk_code_supported, ElementKind};
use vstd::prelude::*;
use vstd::string::StringSliceAdditionalSpecFns;

verus! {

/// Cell `i` of the grid can be taken: its offsets exist and bound a slice of
/// the connectivity, and its type code names a supported kind.
pub open spec fn vtk_cell_ok(offsets: Seq<usize>, conn: Seq<i64>, types: Seq<usize>, i: int) -> bool {
    &&& i + 1 < offsets.len()
    &&& offsets[i] <= offsets[i + 1] <= conn.len()
    &&& spec_vtk_kind(types[i] as u8) is Some
}

/// Every cell of the grid can be taken.
pub open spec fn vtk_grid_ok(offsets: Seq<usize>, conn: Seq<i64>, types: Seq<usize>) -> bool {
    forall|i: int| 0 <= i < types.len() ==> #[trigger] vtk_cell_ok(offsets, conn, types, i)
}

/// Node indices of stored connectivity values.
pub open spec fn vtk_nodes(s: Seq<i64>) -> Seq<usize> {
    s.map_values(|x: i64| x as usize)
}

/// The cells of the grid, in order.
pub open spec fn vtk_cells(offsets: Seq<usize>, conn: Seq<i64>, types: Seq<usize>) -> Seq<CellView> {
    Seq::new(
        types.len(),
        |i: int|
            (
                spec_vtk_kind(types[i] as u8).unwrap(),
                vtk_nodes(conn.subrange(offsets[i] as int, offsets[i + 1] as int)),
                None::<usize>,
            ),
    )
}

/// Each cell read from a grid has the kind of its type code, no family, and
/// exactly the nodes `connectivity[offsets[i]..offsets[i + 1]]`: as many as
/// the two offsets differ by, node `t` being `connectivity[offsets[i] + t]`.
pub proof fn law_vtk_cell_nodes(offsets: Seq<usize>, conn: Seq<i64>, types: Seq<usize>, i: int)
    requires
        vtk_grid_ok(offsets, conn, types),
        0 <= i < types.len(),
    ensures
        vtk_cells(offsets, conn, types).len() == types.len(),
        Some(vtk_cells(offsets, conn, types)[i].0) == spec_vtk_kind(types[i] as u8),
        vtk_cells(offsets, conn, types)[i].1.len() == offsets[i + 1] - offsets[i],
        forall|t: int|
            0 <= t < offsets[i + 1] - offsets[i] ==> #[trigger] vtk_cells(offsets, conn, types)[i].1[t]
                == conn[offsets[i] + t] as usize,
        vtk_cells(offsets, conn, types)[i].2 is None,
{
    assert(vtk_cell_ok(offsets, conn, types, i));
}

fn vtk_cell_bounds(offsets: &[usize], conn: &[i64], types: &[usize], i: usize) -> (r: bool)
    requires
        i < types.len(),
    ensures
        r == vtk_cell_ok(offsets@, conn@, types@, i as int),
{
    i + 1 < offsets.len() && offsets[i] <= offsets[i + 1] && offsets[i + 1] <= conn.len()
        && vtk_code_supported(types[i] as u8)
}

/// Whether every cell of a grid can be taken (the offsets have an entry past
/// each cell, bound slices of the connectivity, and every type is supported).
pub fn vtk_grid_readable(offsets: &[usize], conn: &[i64], types: &[usize]) -> (r: bool)
    ensures
        r == vtk_grid_ok(offsets@, conn@, types@),
{
    let mut i: usize = 0;
    while i < types.len()
        invariant
            i <= types.len(),
            forall|k: int| 0 <= k < i ==> #[trigger] vtk_cell_ok(offsets@, conn@, types@, k),
        decreases types.len() - i,
    {
        if !vtk_cell_bounds(offsets, conn, types, i) {
            return false;
        }
        i = i + 1;
    }
    true
}

/// The cells of an unstructured grid: cell `i` has the kind of `types[i]` and
/// the nodes `connectivity[offsets[i]..offsets[i + 1]]`.
pub fn vtk_grid_cells(offsets: &[usize], conn: &[i64], types: &[usize]) -> (r: Vec<MeshCell>)
    requires
        vtk_grid_ok(offsets@, conn@, types@),
    ensures
        cells_view(r@) == vtk_cells(offsets@, conn@, types@),
{
    let mut cells: Vec<MeshCell> = Vec::new();
    let mut i: usize = 0;
    while i < types.len()
        invariant
            i <= types.len(),
            vtk_grid_ok(offsets@, conn@, types@),
            cells_view(cells@) == vtk_cells(offsets@, conn@, types@).take(i as int),
        decreases types.len() - i,
    {
        assert(vtk_cell_ok(offsets@, conn@, types@, i as int));
        let start = offsets[i];
        let end = offsets[i + 1];
        let kind = to_element_type(types[i] as u8);
        let mut nodes: Vec<usize> = Vec::new();
        let mut k = start;
        while k < end
            invariant
                start <= k <= end <= conn.len(),
                nodes@ == vtk_nodes(conn@.subrange(start as int, k as int)),
            decreases end - k,
        {
            nodes.push(conn[k] as usize);
            assert(conn@.subrange(start as int, k + 1) =~= conn@.subrange(start as int, k as int).push(
                conn@[k as int],
            ));
            assert(nodes@ =~= vtk_nodes(conn@.subrange(start as int, k + 1)));
            k = k + 1;
        }
        let ghost old_cells = cells@;
        let cell = MeshCell { kind, nodes, family: None };
        cells.push(cell);
        proof {
            lemma_cells_view_push(old_cells, cell);
            assert(vtk_cells(offsets@, conn@, types@).take(i + 1) =~= vtk_cells(
                offsets@,
                conn@,
                types@,
            ).take(i as int).push(cell@));
        }
        i = i + 1;
    }
    assert(vtk_cells(offsets@, conn@, types@).take(types.len() as int) =~= vtk_cells(
        offsets@,
        conn@,
        types@,
    ));
    cells
}


/// The three arrays of an unstructured grid as the VTKHDF writer emits them.
pub struct VtkArrays {
    /// VTK cell-type code of each element.
    pub types: Vec<u8>,
    /// End of each element's nodes in the connectivity (one entry per element).
    pub offsets: Vec<usize>,
    /// Node indices of all elements, one after the other.
    pub connectivity: Vec<usize>,
}

/// One element: its kind and nodes.
pub type ElementView = (ElementKind, Seq<usize>);

/// The elements of a block.
pub open spec fn block_elements(b: CellBlock) -> Seq<ElementView> {
    cells_of(b).map_values(|c: Seq<usize>| (b.kind, c))
}

/// The elements of a mesh, block after block.
pub open spec fn mesh_elements(blocks: Seq<CellBlock>) -> Seq<ElementView> {
    blocks.map_values(|b: CellBlock| block_elements(b)).flatten()
}

pub open spec fn node_lists(es: Seq<ElementView>) -> Seq<Seq<usize>> {
    es.map_values(|e: ElementView| e.1)
}

pub open spec fn type_codes(es: Seq<ElementView>) -> Seq<u8> {
    es.map_values(|e: ElementView| spec_vtk_code(e.0).unwrap())
}

/// End offsets of the elements' nodes.
pub open spec fn end_offsets(es: Seq<ElementView>) -> Seq<usize> {
    Seq::new(es.len(), |i: int| node_lists(es.take(i + 1)).flatten().len() as usize)
}

/// Every non-empty block has a kind the VTKHDF writer supports.
pub open spec fn vtk_writable(blocks: Seq<CellBlock>) -> bool {
    forall|k: int|
        0 <= k < blocks.len() && blocks[k].cells.len() > 0 ==> (#[trigger] spec_vtk_code(
            blocks[k].kind,
        )) is Some
}

proof fn lemma_elements_push(done: Seq<ElementView>, e: ElementView)
    ensures
        node_lists(done.push(e)) == node_lists(done).push(e.1),
        type_codes(done.push(e)) == type_codes(done).push(spec_vtk_code(e.0).unwrap()),
        node_lists(done.push(e)).flatten() == node_lists(done).flatten() + e.1,
{
    assert(node_lists(done.push(e)) =~= node_lists(done).push(e.1));
    assert(type_codes(done.push(e)) =~= type_codes(done).push(spec_vtk_code(e.0).unwrap()));
    node_lists(done).lemma_flatten_push(e.1);
}

/// Whether every non-empty block has a kind the VTKHDF writer supports.
pub fn vtk_blocks_writable(blocks: &Vec<CellBlock>) -> (r: bool)
    ensures
        r == vtk_writable(blocks@),
{
    let mut k: usize = 0;
    while k < blocks.len()
        invariant
            k <= blocks.len(),
            forall|j: int|
                0 <= j < k && blocks@[j].cells.len() > 0 ==> (#[trigger] spec_vtk_code(
                    blocks@[j].kind,
                )) is Some,
        decreases blocks.len() - k,
    {
        if blocks[k].cells.len() > 0 && crate::kinds::vtk_code_of(blocks[k].kind).is_none() {
            return false;
        }
        k = k + 1;
    }
    true
}

/// The arrays of the unstructured grid that holds the mesh's elements, block
/// after block: each element's type code, the end offset of its nodes, and
/// all nodes one after the other.
pub fn vtk_arrays(blocks: &Vec<CellBlock>) -> (r: VtkArrays)
    requires
        vtk_writable(blocks@),
    ensures
        r.types@ == type_codes(mesh_elements(blocks@)),
        r.connectivity@ == node_lists(mesh_elements(blocks@)).flatten(),
        r.offsets@ == end_offsets(mesh_elements(blocks@)),
{
    let mut types: Vec<u8> = Vec::new();
    let mut offsets: Vec<usize> = Vec::new();
    let mut connectivity: Vec<usize> = Vec::new();
    let ghost mut done: Seq<ElementView> = Seq::empty();
    let mut b: usize = 0;
    assert(blocks@.take(0) =~= Seq::<CellBlock>::empty());
    assert(mesh_elements(blocks@.take(0)) =~= Seq::<ElementView>::empty());
    assert(node_lists(done).flatten() =~= Seq::<usize>::empty());
    while b < blocks.len()
        invariant
            b <= blocks.len(),
            vtk_writable(blocks@),
            done == mesh_elements(blocks@.take(b as int)),
            types@ == type_codes(done),
            connectivity@ == node_lists(done).flatten(),
            offsets@ == end_offsets(done),
        decreases blocks.len() - b,
    {
        let block = &blocks[b];
        let ghost base = done;
        let mut c: usize = 0;
        while c < block.cells.len()
            invariant
                c <= block.cells.len(),
                b < blocks.len(),
                block == &blocks@[b as int],
                vtk_writable(blocks@),
                done == base + block_elements(blocks@[b as int]).take(c as int),
                types@ == type_codes(done),
                connectivity@ == node_lists(done).flatten(),
                offsets@ == end_offsets(done),
            decreases block.cells.len() - c,
        {
            assert(spec_vtk_code(blocks@[b as int].kind) is Some);
            let code = into_vtk_u8(block.kind);
            let cell = &block.cells[c];
            let ghost before = connectivity@;
            let mut t: usize = 0;
            while t < cell.len()
                invariant
                    t <= cell.len(),
                    connectivity@ == before + cell@.take(t as int),
                decreases cell.len() - t,
            {
                connectivity.push(cell[t]);
                assert(cell@.take(t + 1) =~= cell@.take(t as int).push(cell@[t as int]));
                t = t + 1;
            }
            assert(cell@.take(cell.len() as int) =~= cell@);
            let ghost e: ElementView = (block.kind, cell@);
            proof {
                lemma_elements_push(done, e);
                assert(block_elements(blocks@[b as int]).take(c + 1) =~= block_elements(
                    blocks@[b as int],
                ).take(c as int).push(e));
            }
            types.push(code);
            offsets.push(connectivity.len());
            proof {
                let nd = done.push(e);
                assert(nd.take(nd.len() as int) =~= nd);
                assert forall|i: int| 0 <= i < done.len() implies #[trigger] nd.take(i + 1) == done.take(
                    i + 1,
                ) by {
                    assert(nd.take(i + 1) =~= done.take(i + 1));
                }
                assert(offsets@ =~= end_offsets(nd));
                done = nd;
            }
            c = c + 1;
        }
        proof {
            assert(block_elements(blocks@[b as int]).take(block.cells.len() as int) =~= block_elements(
                blocks@[b as int],
            ));
            let f = |x: CellBlock| block_elements(x);
            assert(blocks@.take(b + 1) =~= blocks@.take(b as int).push(blocks@[b as int]));
            assert(blocks@.take(b + 1).map_values(f) =~= blocks@.take(b as int).map_values(f).push(
                f(blocks@[b as int]),
            ));
            blocks@.take(b as int).map_values(f).lemma_flatten_push(f(blocks@[b as int]));
        }
        b = b + 1;
    }
    assert(blocks@.take(blocks.len() as int) =~= blocks@);
    VtkArrays { types, offsets, connectivity }
}


/// A node index stored as a 64-bit connectivity value reads back unchanged.
proof fn lemma_node_value_cast(x: usize)
    ensures
        ((x as i64) as usize) == x,
{
    assert(((x as i64) as usize) == x) by (bit_vector);
}

/// The arrays that the writer builds from a list of elements, read back with
/// a leading 0 offset, give those elements again: each with its kind and its
/// node list, in order.
pub proof fn law_vtk_arrays_read_back(es: Seq<ElementView>)
    requires
        forall|i: int| 0 <= i < es.len() ==> (#[trigger] spec_vtk_code(es[i].0)) is Some,
        node_lists(es).flatten().len() <= usize::MAX,
    ensures
        ({
            let offs = seq![0usize] + end_offsets(es);
            let conn = node_lists(es).flatten().map_values(|x: usize| x as i64);
            let types = type_codes(es).map_values(|c: u8| c as usize);
            &&& vtk_grid_ok(offs, conn, types)
            &&& vtk_cells(offs, conn, types) == es.map_values(
                |e: ElementView| (e.0, e.1, None::<usize>),
            )
        }),
{
    let nl = node_lists(es);
    let offs = seq![0usize] + end_offsets(es);
    let conn = nl.flatten().map_values(|x: usize| x as i64);
    let types = type_codes(es).map_values(|c: u8| c as usize);
    assert forall|i: int| 0 <= i <= es.len() implies #[trigger] offs[i] == nl.take(i).flatten().len() by {
        if i == 0 {
            assert(nl.take(0) =~= Seq::<Seq<usize>>::empty());
        } else {
            assert(node_lists(es.take(i)) =~= nl.take(i));
            crate::roundtrip::lemma_flatten_part(nl, i - 1);
        }
    }
    assert forall|i: int| 0 <= i < es.len() implies #[trigger] vtk_cell_ok(offs, conn, types, i) && vtk_cells(
        offs,
        conn,
        types,
    )[i] == (es[i].0, es[i].1, None::<usize>) by {
        crate::roundtrip::lemma_flatten_part(nl, i);
        assert(offs[i] == nl.take(i).flatten().len());
        assert(offs[i + 1] == nl.take(i + 1).flatten().len());
        assert(spec_vtk_code(es[i].0) is Some);
        crate::kinds::law_vtk_codes_roundtrip(es[i].0, 0);
        let c = spec_vtk_code(es[i].0).unwrap();
        assert(types[i] == c as usize);
        assert((c as usize) as u8 == c);
        let a = offs[i] as int;
        let b = offs[i + 1] as int;
        assert(nl.flatten().subrange(a, b) == es[i].1);
        assert(vtk_nodes(conn.subrange(a, b)) =~= es[i].1) by {
            assert forall|t: int| 0 <= t < b - a implies #[trigger] vtk_nodes(conn.subrange(a, b))[t]
                == es[i].1[t] by {
                lemma_node_value_cast(nl.flatten()[a + t]);
                assert(nl.flatten().subrange(a, b)[t] == nl.flatten()[a + t]);
            }
        }
    }
    assert(types.len() == es.len());
    assert forall|i: int| 0 <= i < es.len() implies #[trigger] vtk_cells(offs, conn, types)[i] == es.map_values(
        |e: ElementView| (e.0, e.1, None::<usize>),
    )[i] by {
        assert(vtk_cell_ok(offs, conn, types, i));
    }
    assert(vtk_cells(offs, conn, types) =~= es.map_values(|e: ElementView| (e.0, e.1, None::<usize>)));
}

/// What the `Type` attribute of a VTKHDF group says the group holds.
#[derive(Clone, Copy, Debug, PartialEq, Eq, Structural)]
pub enum VtkGroupKind {
    /// `UnstructuredGrid`: the group is the grid to read.
    UnstructuredGrid,
    /// `PartitionedDataSetCollection` or `MultiBlockDataSet`: the grid is one of its blocks.
    Collection,
    /// Anything else.
    Other,
}

/// The kind that a `Type` attribute (by its bytes) names.
pub open spec fn spec_group_kind(t: Seq<u8>) -> VtkGroupKind {
    if t == "UnstructuredGrid".spec_bytes() {
        VtkGroupKind::UnstructuredGrid
    } else if t == "PartitionedDataSetCollection".spec_bytes() || t
        == "MultiBlockDataSet".spec_bytes() {
        VtkGroupKind::Collection
    } else {
        VtkGroupKind::Other
    }
}

fn bytes_eq(a: &[u8], b: &[u8]) -> (r: bool)
    ensures
        r == (a@ == b@),
{
    if a.len() != b.len() {
        return false;
    }
    let mut i: usize = 0;
    while i < a.len()
        invariant
            i <= a.len() == b.len(),
            forall|k: int| 0 <= k < i ==> a@[k] == b@[k],
        decreases a.len() - i,
    {
        if a[i] != b[i] {
            return false;
        }
        i = i + 1;
    }
    assert(a@ =~= b@);
    true
}

/// What a VTKHDF group's `Type` attribute says the group holds.
pub fn vtk_group_kind(group_type: &str) -> (k: VtkGroupKind)
    ensures
        k == spec_group_kind(group_type.spec_bytes()),
{
    let t = group_type.as_bytes();
    if bytes_eq(t, "UnstructuredGrid".as_bytes()) {
        VtkGroupKind::UnstructuredGrid
    } else if bytes_eq(t, "PartitionedDataSetCollection".as_bytes()) || bytes_eq(
        t,
        "MultiBlockDataSet".as_bytes(),
    ) {
        VtkGroupKind::Collection
    } else {
        VtkGroupKind::Other
    }
}

} // verus!
