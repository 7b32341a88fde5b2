//! Element kinds and the integer codes that the CGNS and VTKHDF formats use for them.
use vstd::prelude::*;

verus! {

/// The kinds of mesh element, in the order of the mesh library's element type
/// (the order in which a mesh lists its blocks).
#[derive(Clone, Copy, Debug, PartialEq, Eq, Structural)]
pub enum ElementKind {
    VERTEX,
    SEG2,
    SEG3,
    SEG4,
    SPLINE,
    TRI3,
    TRI6,
    TRI7,
    QUAD4,
    QUAD8,
    QUAD9,
    PGON,
    TET4,
    TET10,
    HEX8,
    HEX21,
    PHED,
}

impl ElementKind {
    /// Position of the kind in the mesh library's ordering of element types.
    pub open spec fn rank(self) -> int {
        match self {
            ElementKind::VERTEX => 0,
            ElementKind::SEG2 => 1,
            ElementKind::SEG3 => 2,
            ElementKind::SEG4 => 3,
            ElementKind::SPLINE => 4,
            ElementKind::TRI3 => 5,
            ElementKind::TRI6 => 6,
            ElementKind::TRI7 => 7,
            ElementKind::QUAD4 => 8,
            ElementKind::QUAD8 => 9,
            ElementKind::QUAD9 => 10,
            ElementKind::PGON => 11,
            ElementKind::TET4 => 12,
            ElementKind::TET10 => 13,
            ElementKind::HEX8 => 14,
            ElementKind::HEX21 => 15,
            ElementKind::PHED => 16,
        }
    }
}

/// CGNS element-type code of a kind, for the kinds this library reads and writes.
pub open spec fn spec_cgns_code(kind: ElementKind) -> Option<i32> {
    match kind {
        ElementKind::VERTEX => Some(2i32),
        ElementKind::SEG2 => Some(3i32),
        ElementKind::TRI3 => Some(5i32),
        ElementKind::QUAD4 => Some(7i32),
        ElementKind::TET4 => Some(10i32),
        ElementKind::HEX8 => Some(17i32),
        ElementKind::PGON => Some(22i32),
        ElementKind::PHED => Some(23i32),
        _ => None,
    }
}

/// Element kind named by a CGNS element-type code.
pub open spec fn spec_cgns_kind(code: i32) -> Option<ElementKind> {
    if code == 2 {
        Some(ElementKind::VERTEX)
    } else if code == 3 {
        Some(ElementKind::SEG2)
    } else if code == 5 {
        Some(ElementKind::TRI3)
    } else if code == 7 {
        Some(ElementKind::QUAD4)
    } else if code == 10 {
        Some(ElementKind::TET4)
    } else if code == 17 {
        Some(ElementKind::HEX8)
    } else if code == 22 {
        Some(ElementKind::PGON)
    } else if code == 23 {
        Some(ElementKind::PHED)
    } else {
        None
    }
}

/// Fixed number of nodes per element of a CGNS code; `None` for the polygon and
/// polyhedron codes and for unknown codes.
pub open spec fn spec_cgns_stride(code: i32) -> Option<usize> {
    if code == 2 {
        Some(1usize)
    } else if code == 3 {
        Some(2usize)
    } else if code == 5 {
        Some(3usize)
    } else if code == 7 {
        Some(4usize)
    } else if code == 10 {
        Some(4usize)
    } else if code == 17 {
        Some(8usize)
    } else {
        None
    }
}

/// VTK cell-type code of a kind, for the kinds the VTKHDF writer accepts.
pub open spec fn spec_vtk_code(kind: ElementKind) -> Option<u8> {
    match kind {
        ElementKind::VERTEX => Some(1u8),
        ElementKind::SEG2 => Some(3u8),
        ElementKind::TRI3 => Some(5u8),
        ElementKind::PGON => Some(7u8),
        ElementKind::QUAD4 => Some(9u8),
        ElementKind::TET4 => Some(10u8),
        ElementKind::HEX8 => Some(12u8),
        ElementKind::PHED => Some(42u8),
        _ => None,
    }
}

/// Element kind named by a VTK cell-type code.
pub open spec fn spec_vtk_kind(code: u8) -> Option<ElementKind> {
    if code == 1 {
        Some(ElementKind::VERTEX)
    } else if code == 3 {
        Some(ElementKind::SEG2)
    } else if code == 5 {
        Some(ElementKind::TRI3)
    } else if code == 7 {
        Some(ElementKind::PGON)
    } else if code == 9 {
        Some(ElementKind::QUAD4)
    } else if code == 10 {
        Some(ElementKind::TET4)
    } else if code == 12 {
        Some(ElementKind::HEX8)
    } else if code == 42 {
        Some(ElementKind::PHED)
    } else {
        None
    }
}

/// What a CGNS element-type code tells the reader: the kind, and the fixed
/// number of nodes per element (`None` for polygons and polyhedra).
pub struct CgnsElementInfo {
    pub element_type: ElementKind,
    pub nodes_per_cell: Option<usize>,
}

/// Kind and stride of a CGNS element-type code; `None` for codes this reader skips.
pub fn cgns_element_info(code: i32) -> (info: Option<CgnsElementInfo>)
    ensures
        match info {
            Some(i) => spec_cgns_kind(code) == Some(i.element_type) && i.nodes_per_cell
                == spec_cgns_stride(code),
            None => spec_cgns_kind(code).is_none(),
        },
{
    match code {
        2 => Some(CgnsElementInfo { element_type: ElementKind::VERTEX, nodes_per_cell: Some(1) }),
        3 => Some(CgnsElementInfo { element_type: ElementKind::SEG2, nodes_per_cell: Some(2) }),
        5 => Some(CgnsElementInfo { element_type: ElementKind::TRI3, nodes_per_cell: Some(3) }),
        7 => Some(CgnsElementInfo { element_type: ElementKind::QUAD4, nodes_per_cell: Some(4) }),
        10 => Some(CgnsElementInfo { element_type: ElementKind::TET4, nodes_per_cell: Some(4) }),
        17 => Some(CgnsElementInfo { element_type: ElementKind::HEX8, nodes_per_cell: Some(8) }),
        22 => Some(CgnsElementInfo { element_type: ElementKind::PGON, nodes_per_cell: None }),
        23 => Some(CgnsElementInfo { element_type: ElementKind::PHED, nodes_per_cell: None }),
        _ => None,
    }
}

/// Kind named by a CGNS element-type code; `None` for codes that are skipped.
pub fn cgns_code_to_element_type(code: i32) -> (kind: Option<ElementKind>)
    ensures
        kind == spec_cgns_kind(code),
{
    match code {
        2 => Some(ElementKind::VERTEX),
        3 => Some(ElementKind::SEG2),
        5 => Some(ElementKind::TRI3),
        7 => Some(ElementKind::QUAD4),
        10 => Some(ElementKind::TET4),
        17 => Some(ElementKind::HEX8),
        22 => Some(ElementKind::PGON),
        23 => Some(ElementKind::PHED),
        _ => None,
    }
}

/// CGNS code of a kind, or `None` where the format has none in this library.
pub fn cgns_code_of(kind: ElementKind) -> (code: Option<i32>)
    ensures
        code == spec_cgns_code(kind),
{
    match kind {
        ElementKind::VERTEX => Some(2),
        ElementKind::SEG2 => Some(3),
        ElementKind::TRI3 => Some(5),
        ElementKind::PGON => Some(22),
        ElementKind::QUAD4 => Some(7),
        ElementKind::TET4 => Some(10),
        ElementKind::HEX8 => Some(17),
        ElementKind::PHED => Some(23),
        _ => None,
    }
}

/// CGNS code of a kind that the writer supports.
pub fn element_type_to_cgns(kind: ElementKind) -> (code: i32)
    requires
        spec_cgns_code(kind).is_some(),
    ensures
        Some(code) == spec_cgns_code(kind),
{
    match kind {
        ElementKind::VERTEX => 2,
        ElementKind::SEG2 => 3,
        ElementKind::TRI3 => 5,
        ElementKind::PGON => 22,
        ElementKind::QUAD4 => 7,
        ElementKind::TET4 => 10,
        ElementKind::HEX8 => 17,
        _ => 23,
    }
}

/// Fixed number of nodes per element of a CGNS code (`None` for poly and unknown codes).
pub fn nodes_per_cgns_code(code: i32) -> (n: Option<usize>)
    ensures
        n == spec_cgns_stride(code),
{
    match code {
        2 => Some(1),
        3 => Some(2),
        5 => Some(3),
        7 => Some(4),
        10 => Some(4),
        17 => Some(8),
        _ => None,
    }
}

/// Kind named by a VTK cell-type code that the VTKHDF reader supports.
pub fn to_element_type(code: u8) -> (kind: ElementKind)
    requires
        spec_vtk_kind(code).is_some(),
    ensures
        Some(kind) == spec_vtk_kind(code),
{
    match code {
        1 => ElementKind::VERTEX,
        3 => ElementKind::SEG2,
        5 => ElementKind::TRI3,
        7 => ElementKind::PGON,
        9 => ElementKind::QUAD4,
        10 => ElementKind::TET4,
        12 => ElementKind::HEX8,
        _ => ElementKind::PHED,
    }
}

/// Whether a VTK cell-type code is one the VTKHDF reader supports.
pub fn vtk_code_supported(code: u8) -> (b: bool)
    ensures
        b == spec_vtk_kind(code).is_some(),
{
    code == 1 || code == 3 || code == 5 || code == 7 || code == 9 || code == 10 || code == 12
        || code == 42
}

/// VTK cell-type code of a kind, or `None` where the VTKHDF writer has none.
pub fn vtk_code_of(kind: ElementKind) -> (code: Option<u8>)
    ensures
        code == spec_vtk_code(kind),
{
    match kind {
        ElementKind::VERTEX => Some(1),
        ElementKind::SEG2 => Some(3),
        ElementKind::TRI3 => Some(5),
        ElementKind::PGON => Some(7),
        ElementKind::QUAD4 => Some(9),
        ElementKind::TET4 => Some(10),
        ElementKind::HEX8 => Some(12),
        ElementKind::PHED => Some(42),
        _ => None,
    }
}

/// VTK cell-type code of a kind that the VTKHDF writer supports.
pub fn into_vtk_u8(kind: ElementKind) -> (code: u8)
    requires
        spec_vtk_code(kind).is_some(),
    ensures
        Some(code) == spec_vtk_code(kind),
{
    match kind {
        ElementKind::VERTEX => 1,
        ElementKind::SEG2 => 3,
        ElementKind::TRI3 => 5,
        ElementKind::PGON => 7,
        ElementKind::QUAD4 => 9,
        ElementKind::TET4 => 10,
        ElementKind::HEX8 => 12,
        _ => 42,
    }
}

/// The CGNS code table is one-to-one: reading back the code that the writer
/// gives a kind names that kind, and every code the reader knows is the
/// writer's code for the kind it names.
pub proof fn law_cgns_codes_roundtrip(kind: ElementKind, code: i32)
    ensures
        spec_cgns_code(kind) matches Some(c) ==> spec_cgns_kind(c) == Some(kind),
        spec_cgns_kind(code) matches Some(k) ==> spec_cgns_code(k) == Some(code),
{
}

/// The VTK code table is one-to-one in the same way.
pub proof fn law_vtk_codes_roundtrip(kind: ElementKind, code: u8)
    ensures
        spec_vtk_code(kind) matches Some(c) ==> spec_vtk_kind(c) == Some(kind),
        spec_vtk_kind(code) matches Some(k) ==> spec_vtk_code(k) == Some(code),
{
}

/// A CGNS code has a fixed stride exactly when it names a kind other than the
/// polygon and polyhedron, and the CGNS and VTK tables support the same kinds.
pub proof fn law_code_tables_agree(code: i32, kind: ElementKind)
    ensures
        spec_cgns_stride(code).is_some() <==> (spec_cgns_kind(code).is_some()
            && spec_cgns_kind(code) != Some(ElementKind::PGON) && spec_cgns_kind(code) != Some(
            ElementKind::PHED)),
        spec_cgns_code(kind).is_some() <==> spec_vtk_code(kind).is_some(),
{
}

/// The VTK cell-type numbers of the supported kinds, both ways: vertex 1,
/// line 3, triangle 5, polygon 7, quadrilateral 9, tetrahedron 10,
/// hexahedron 12, polyhedron 42; no other kind has one.
pub proof fn law_vtk_code_values(kind: ElementKind)
    ensures
        spec_vtk_code(ElementKind::VERTEX) == Some(1u8) && spec_vtk_kind(1) == Some(ElementKind::VERTEX),
        spec_vtk_code(ElementKind::SEG2) == Some(3u8) && spec_vtk_kind(3) == Some(ElementKind::SEG2),
        spec_vtk_code(ElementKind::TRI3) == Some(5u8) && spec_vtk_kind(5) == Some(ElementKind::TRI3),
        spec_vtk_code(ElementKind::PGON) == Some(7u8) && spec_vtk_kind(7) == Some(ElementKind::PGON),
        spec_vtk_code(ElementKind::QUAD4) == Some(9u8) && spec_vtk_kind(9) == Some(ElementKind::QUAD4),
        spec_vtk_code(ElementKind::TET4) == Some(10u8) && spec_vtk_kind(10) == Some(ElementKind::TET4),
        spec_vtk_code(ElementKind::HEX8) == Some(12u8) && spec_vtk_kind(12) == Some(ElementKind::HEX8),
        spec_vtk_code(ElementKind::PHED) == Some(42u8) && spec_vtk_kind(42) == Some(ElementKind::PHED),
        spec_vtk_code(kind) is Some <==> (kind == ElementKind::VERTEX || kind == ElementKind::SEG2
            || kind == ElementKind::TRI3 || kind == ElementKind::PGON || kind == ElementKind::QUAD4
            || kind == ElementKind::TET4 || kind == ElementKind::HEX8 || kind == ElementKind::PHED),
{
}

/// The CGNS element-type numbers of the supported kinds, both ways, with the
/// node count of the fixed-size ones: NODE 2 (1 node), BAR_2 3 (2), TRI_3 5
/// (3), QUAD_4 7 (4), TETRA_4 10 (4), HEXA_8 17 (8), NGON_n 22 and NFACE_n 23
/// (no fixed count).
pub proof fn law_cgns_code_values()
    ensures
        spec_cgns_code(ElementKind::VERTEX) == Some(2i32) && spec_cgns_kind(2) == Some(ElementKind::VERTEX)
            && spec_cgns_stride(2) == Some(1usize),
        spec_cgns_code(ElementKind::SEG2) == Some(3i32) && spec_cgns_kind(3) == Some(ElementKind::SEG2)
            && spec_cgns_stride(3) == Some(2usize),
        spec_cgns_code(ElementKind::TRI3) == Some(5i32) && spec_cgns_kind(5) == Some(ElementKind::TRI3)
            && spec_cgns_stride(5) == Some(3usize),
        spec_cgns_code(ElementKind::QUAD4) == Some(7i32) && spec_cgns_kind(7) == Some(ElementKind::QUAD4)
            && spec_cgns_stride(7) == Some(4usize),
        spec_cgns_code(ElementKind::TET4) == Some(10i32) && spec_cgns_kind(10) == Some(ElementKind::TET4)
            && spec_cgns_stride(10) == Some(4usize),
        spec_cgns_code(ElementKind::HEX8) == Some(17i32) && spec_cgns_kind(17) == Some(ElementKind::HEX8)
            && spec_cgns_stride(17) == Some(8usize),
        spec_cgns_code(ElementKind::PGON) == Some(22i32) && spec_cgns_kind(22) == Some(ElementKind::PGON)
            && spec_cgns_stride(22) is None,
        spec_cgns_code(ElementKind::PHED) == Some(23i32) && spec_cgns_kind(23) == Some(ElementKind::PHED)
            && spec_cgns_stride(23) is None,
{
}

} // verus!
