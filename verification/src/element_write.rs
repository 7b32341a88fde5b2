//! Planning the `Elements_t` sections that the CGNS writer emits for a mesh.
//!
//! Each block of the mesh becomes one section with a contiguous 1-based
//! element range. Node indices are written 1-based. Polygon blocks become
//! `NGON_n` sections (flat connectivity and start offsets); polyhedron blocks
//! become `NFACE_n` sections whose connectivity holds, per cell, one signed
//! reference per face to the polygon of the mesh that holds the same nodes
//! (negative when the face runs the other way).
use crate::faces::{
    face_orientation, orientation, same_node_set, same_nodes, split_cell_faces, split_faces,
};
use crate::kinds::{element_type_to_cgns, spec_cgns_code, ElementKind};
use vstd::prelude::*;

verus! {

/// One block of a mesh: its kind and the node lists of its cells, in order.
#[derive(Clone, Debug)]
pub struct CellBlock {
    pub kind: ElementKind,
    /// 0-based node lists; a polyhedron cell ends each face with `usize::MAX`.
    pub cells: Vec<Vec<usize>>,
}

/// The arrays of one section to write.
#[derive(Clone, Debug)]
pub struct SectionPlan {
    pub kind: ElementKind,
    /// CGNS element-type code.
    pub cgns_code: i32,
    /// First and last (1-based) element index of the section.
    pub range_start: i64,
    pub range_end: i64,
    /// `ElementConnectivity`.
    pub connectivity: Vec<i64>,
    /// `ElementStartOffset` (polygon and polyhedron sections only).
    pub start_offsets: Option<Vec<i64>>,
}

/// Mathematical view of a section plan.
pub struct SectionPlanView {
    pub kind: ElementKind,
    pub cgns_code: i32,
    pub range_start: i64,
    pub range_end: i64,
    pub connectivity: Seq<i64>,
    pub start_offsets: Option<Seq<i64>>,
}

impl View for SectionPlan {
    type V = SectionPlanView;

    open spec fn view(&self) -> SectionPlanView {
        SectionPlanView {
            kind: self.kind,
            cgns_code: self.cgns_code,
            range_start: self.range_start,
            range_end: self.range_end,
            connectivity: self.connectivity@,
            start_offsets: match self.start_offsets {
                Some(o) => Some(o@),
                None => None,
            },
        }
    }
}

/// Views of a sequence of section plans.
pub open spec fn plans_view(s: Seq<SectionPlan>) -> Seq<SectionPlanView> {
    s.map_values(|p: SectionPlan| p@)
}

proof fn lemma_plans_view_push(s: Seq<SectionPlan>, p: SectionPlan)
    ensures
        plans_view(s.push(p)) == plans_view(s).push(p@),
{
    assert(plans_view(s.push(p)) =~= plans_view(s).push(p@));
}

/// A reason for which the writer refuses a mesh.
#[derive(Clone, Copy, Debug, PartialEq, Eq, Structural)]
pub enum WriteError {
    /// A polyhedron face holds nodes that no polygon of the mesh holds.
    FaceNotInPolygons,
}

/// Node lists of a block.
pub open spec fn cells_of(b: CellBlock) -> Seq<Seq<usize>> {
    b.cells@.map_values(|c: Vec<usize>| c@)
}

/// Number of elements in the blocks before block `k`.
pub open spec fn count_before(blocks: Seq<CellBlock>, k: int) -> int
    decreases k,
{
    if k <= 0 {
        0
    } else {
        count_before(blocks, k - 1) + blocks[k - 1].cells.len()
    }
}

/// First element index (1-based) of block `k`.
pub open spec fn block_start(blocks: Seq<CellBlock>, k: int) -> int {
    1 + count_before(blocks, k)
}

/// A node index as written: 1-based.
pub open spec fn encode_node(x: usize) -> i64 {
    ((x as i64) + 1) as i64
}

/// A node list as written.
pub open spec fn encode_cell(c: Seq<usize>) -> Seq<i64> {
    c.map_values(|x: usize| encode_node(x))
}

/// Written node lists of cells.
pub open spec fn encoded_parts(cells: Seq<Seq<usize>>) -> Seq<Seq<i64>> {
    cells.map_values(|c: Seq<usize>| encode_cell(c))
}

/// Start offsets of consecutive parts of a flat array: `n + 1` values from 0.
pub open spec fn offsets_of_parts(parts: Seq<Seq<i64>>) -> Seq<i64> {
    Seq::new((parts.len() + 1) as nat, |i: int| parts.take(i).flatten().len() as i64)
}

/// Position of the first polygon block.
pub open spec fn pgon_block(blocks: Seq<CellBlock>) -> Option<int> {
    first_kind(blocks, ElementKind::PGON, 0)
}

pub open spec fn first_kind(blocks: Seq<CellBlock>, kind: ElementKind, from: int) -> Option<int>
    decreases blocks.len() - from,
{
    if from < 0 || from >= blocks.len() {
        None
    } else if blocks[from].kind == kind {
        Some(from)
    } else {
        first_kind(blocks, kind, from + 1)
    }
}

/// Position of the last of the first `k` polygons that holds the same nodes as `face`.
pub open spec fn last_match(pgons: Seq<Seq<usize>>, face: Seq<usize>, k: int) -> Option<int>
    decreases k,
{
    if k <= 0 {
        None
    } else if same_nodes(pgons[k - 1], face) {
        Some(k - 1)
    } else {
        last_match(pgons, face, k - 1)
    }
}

/// Signed reference that the writer gives a polyhedron face, `None` where no
/// polygon holds its nodes.
pub open spec fn face_ref(blocks: Seq<CellBlock>, face: Seq<usize>) -> Option<i64> {
    match pgon_block(blocks) {
        None => None,
        Some(p) => {
            let pgons = cells_of(blocks[p]);
            match last_match(pgons, face, pgons.len() as int) {
                None => None,
                Some(j) => Some((orientation(pgons[j], face) * (block_start(blocks, p) + j)) as i64),
            }
        },
    }
}

/// Every face of a polyhedron cell has a reference.
pub open spec fn cell_refs_ok(blocks: Seq<CellBlock>, cell: Seq<usize>) -> bool {
    forall|f: int|
        0 <= f < split_faces(cell).len() ==> (#[trigger] face_ref(blocks, split_faces(cell)[f])) is Some
}

/// The references written for a polyhedron cell.
pub open spec fn cell_refs(blocks: Seq<CellBlock>, cell: Seq<usize>) -> Seq<i64> {
    split_faces(cell).map_values(|f: Seq<usize>| face_ref(blocks, f).unwrap())
}

/// The section that the writer plans for block `k`, `None` where a polyhedron
/// face has no polygon.
pub open spec fn plan_block(blocks: Seq<CellBlock>, k: int) -> Option<SectionPlanView> {
    let b = blocks[k];
    let cells = cells_of(b);
    let start = block_start(blocks, k);
    let end = start + b.cells.len() - 1;
    let code = spec_cgns_code(b.kind).unwrap();
    match b.kind {
        ElementKind::PGON => Some(
            SectionPlanView {
                kind: b.kind,
                cgns_code: code,
                range_start: start as i64,
                range_end: end as i64,
                connectivity: encoded_parts(cells).flatten(),
                start_offsets: Some(offsets_of_parts(encoded_parts(cells))),
            },
        ),
        ElementKind::PHED => if forall|c: int| 0 <= c < cells.len() ==> #[trigger] cell_refs_ok(
            blocks,
            cells[c],
        ) {
            let parts = cells.map_values(|c: Seq<usize>| cell_refs(blocks, c));
            Some(
                SectionPlanView {
                    kind: b.kind,
                    cgns_code: code,
                    range_start: start as i64,
                    range_end: end as i64,
                    connectivity: parts.flatten(),
                    start_offsets: Some(offsets_of_parts(parts)),
                },
            )
        } else {
            None
        },
        _ => Some(
            SectionPlanView {
                kind: b.kind,
                cgns_code: code,
                range_start: start as i64,
                range_end: end as i64,
                connectivity: encoded_parts(cells).flatten(),
                start_offsets: None,
            },
        ),
    }
}

/// The sections planned for all blocks, in block order, or the refusal.
pub open spec fn plan_sections(blocks: Seq<CellBlock>) -> Result<Seq<SectionPlanView>, WriteError> {
    if forall|k: int| 0 <= k < blocks.len() ==> (#[trigger] plan_block(blocks, k)) is Some {
        Ok(Seq::new(blocks.len(), |k: int| plan_block(blocks, k).unwrap()))
    } else {
        Err(WriteError::FaceNotInPolygons)
    }
}

/// What the writer needs of a mesh to plan its sections without fault: every
/// kind has a CGNS code, the element count fits the 64-bit element indices,
/// and every node of a written node list can be made 1-based.
pub open spec fn plannable(blocks: Seq<CellBlock>) -> bool {
    &&& forall|k: int| 0 <= k < blocks.len() ==> (#[trigger] spec_cgns_code(blocks[k].kind)) is Some
    &&& count_before(blocks, blocks.len() as int) < i64::MAX
    &&& forall|k: int, c: int, t: int|
        0 <= k < blocks.len() && blocks[k].kind != ElementKind::PHED && 0 <= c
            < blocks[k].cells.len() && 0 <= t < #[trigger] blocks[k].cells@[c]@.len() ==> (
        #[trigger] blocks[k].cells@[c]@[t] as i64) != i64::MAX
}


/// Element counts grow with the number of blocks counted.
proof fn lemma_count_before_monotone(blocks: Seq<CellBlock>, j: int, k: int)
    requires
        0 <= j <= k <= blocks.len(),
    ensures
        count_before(blocks, j) <= count_before(blocks, k),
    decreases k - j,
{
    if j < k {
        lemma_count_before_monotone(blocks, j, k - 1);
    }
}

/// Flat 1-based connectivity of a block's cells and its start offsets.
fn encode_cells(cells: &Vec<Vec<usize>>) -> (r: (Vec<i64>, Vec<i64>))
    requires
        forall|c: int, t: int|
            0 <= c < cells.len() && 0 <= t < #[trigger] cells@[c]@.len() ==> (
            #[trigger] cells@[c]@[t] as i64) != i64::MAX,
    ensures
        r.0@ == encoded_parts(cells@.map_values(|c: Vec<usize>| c@)).flatten(),
        r.1@ == offsets_of_parts(encoded_parts(cells@.map_values(|c: Vec<usize>| c@))),
{
    let ghost parts = encoded_parts(cells@.map_values(|c: Vec<usize>| c@));
    let mut conn: Vec<i64> = Vec::new();
    let mut offs: Vec<i64> = Vec::new();
    offs.push(0);
    assert(offs@ =~= Seq::new(1, |t: int| parts.take(t).flatten().len() as i64)) by {
        assert(parts.take(0) =~= Seq::<Seq<i64>>::empty());
    }
    let mut i: usize = 0;
    while i < cells.len()
        invariant
            i <= cells.len(),
            parts == encoded_parts(cells@.map_values(|c: Vec<usize>| c@)),
            parts.len() == cells.len(),
            forall|c: int, t: int|
                0 <= c < cells.len() && 0 <= t < #[trigger] cells@[c]@.len() ==> (
                #[trigger] cells@[c]@[t] as i64) != i64::MAX,
            conn@ == parts.take(i as int).flatten(),
            offs@ == Seq::new((i + 1) as nat, |t: int| parts.take(t).flatten().len() as i64),
        decreases cells.len() - i,
    {
        let cell = &cells[i];
        let ghost before = conn@;
        let mut t: usize = 0;
        while t < cell.len()
            invariant
                t <= cell.len(),
                i < cells.len(),
                cell == &cells@[i as int],
                forall|u: int| 0 <= u < cell.len() ==> (#[trigger] cell@[u] as i64) != i64::MAX,
                conn@ == before + encode_cell(cell@).take(t as int),
            decreases cell.len() - t,
        {
            let x = cell[t] as i64;
            assert(x != i64::MAX);
            conn.push(x + 1);
            assert(encode_cell(cell@).take(t + 1) =~= encode_cell(cell@).take(t as int).push(
                encode_node(cell@[t as int]),
            ));
            t = t + 1;
        }
        proof {
            assert(encode_cell(cell@).take(cell.len() as int) =~= encode_cell(cell@));
            assert(parts[i as int] == encode_cell(cell@));
            assert(parts.take(i + 1) =~= parts.take(i as int).push(parts[i as int]));
            parts.take(i as int).lemma_flatten_push(parts[i as int]);
        }
        offs.push(conn.len() as i64);
        assert(offs@ =~= Seq::new((i + 2) as nat, |t: int| parts.take(t).flatten().len() as i64));
        i = i + 1;
    }
    assert(parts.take(cells.len() as int) =~= parts);
    (conn, offs)
}

/// Position of the last polygon holding the same nodes as `face`.
fn find_face(pgons: &Vec<Vec<usize>>, face: &Vec<usize>) -> (r: Option<usize>)
    ensures
        match last_match(pgons@.map_values(|c: Vec<usize>| c@), face@, pgons.len() as int) {
            Some(j) => r == Some(j as usize),
            None => r is None,
        },
{
    let ghost pv = pgons@.map_values(|c: Vec<usize>| c@);
    let mut k = pgons.len();
    while k > 0
        invariant
            k <= pgons.len(),
            pv == pgons@.map_values(|c: Vec<usize>| c@),
            last_match(pv, face@, pgons.len() as int) == last_match(pv, face@, k as int),
        decreases k,
    {
        if same_node_set(&pgons[k - 1], face) {
            return Some(k - 1);
        }
        k = k - 1;
    }
    None
}


/// Position and first element index of the first polygon block.
pub open spec fn pgon_info(blocks: Seq<CellBlock>) -> Option<(usize, i64)> {
    match pgon_block(blocks) {
        Some(p) => Some((p as usize, block_start(blocks, p) as i64)),
        None => None,
    }
}

/// Reference for one face, `None` where no polygon holds its nodes.
fn encode_face_ref(
    blocks: &Vec<CellBlock>,
    pg: Option<(usize, i64)>,
    face: &Vec<usize>,
) -> (r: Option<i64>)
    requires
        plannable(blocks@),
        pg == pgon_info(blocks@),
    ensures
        r == face_ref(blocks@, face@),
{
    match pg {
        None => {
            assert(pgon_block(blocks@) is None);
            None
        },
        Some((p, start)) => {
            proof {
                lemma_first_kind_in_bounds(blocks@, ElementKind::PGON, 0);
            }
            let pgons = &blocks[p].cells;
            match find_face(pgons, face) {
                None => None,
                Some(j) => {
                    proof {
                        lemma_last_match(pgons@.map_values(|c: Vec<usize>| c@), face@, pgons.len() as int);
                        lemma_count_before_monotone(blocks@, p as int + 1, blocks.len() as int);
                        assert(count_before(blocks@, p as int + 1) == count_before(blocks@, p as int)
                            + pgons.len());
                        assert(pgons@.map_values(|c: Vec<usize>| c@)[j as int] == pgons@[j as int]@);
                        assert(cells_of(blocks@[p as int]) == pgons@.map_values(|c: Vec<usize>| c@));
                        assert(same_nodes(pgons@[j as int]@, face@));
                        lemma_count_before_monotone(blocks@, 0, p as int);
                        assert(start == block_start(blocks@, p as int));
                    }
                    let o = face_orientation(&pgons[j], face);
                    assert(o == 1 || o == -1);
                    let idx = start + j as i64;
                    Some(o * idx)
                },
            }
        },
    }
}

/// A match found among the first `k` polygons is one of them and holds the face's nodes.
proof fn lemma_last_match(pgons: Seq<Seq<usize>>, face: Seq<usize>, k: int)
    ensures
        last_match(pgons, face, k) matches Some(j) ==> 0 <= j < k && same_nodes(pgons[j], face),
    decreases k,
{
    if k > 0 && !same_nodes(pgons[k - 1], face) {
        lemma_last_match(pgons, face, k - 1);
    }
}

/// The first block of a kind, when found, is in bounds and has that kind.
proof fn lemma_first_kind_in_bounds(blocks: Seq<CellBlock>, kind: ElementKind, from: int)
    requires
        0 <= from,
    ensures
        first_kind(blocks, kind, from) matches Some(p) ==> from <= p < blocks.len()
            && blocks[p].kind == kind && forall|q: int| from <= q < p ==> blocks[q].kind != kind,
    decreases blocks.len() - from,
{
    if from < blocks.len() && blocks[from].kind != kind {
        lemma_first_kind_in_bounds(blocks, kind, from + 1);
    }
}

/// References and start offsets of a polyhedron block; `None` where a face has no polygon.
fn encode_phed_cells(blocks: &Vec<CellBlock>, k: usize, pg: Option<(usize, i64)>) -> (r: Option<
    (Vec<i64>, Vec<i64>),
>)
    requires
        plannable(blocks@),
        k < blocks.len(),
        pg == pgon_info(blocks@),
    ensures
        r.is_some() == (forall|c: int|
            0 <= c < cells_of(blocks@[k as int]).len() ==> #[trigger] cell_refs_ok(
                blocks@,
                cells_of(blocks@[k as int])[c],
            )),
        r matches Some((conn, offs)) ==> {
            let parts = cells_of(blocks@[k as int]).map_values(
                |c: Seq<usize>| cell_refs(blocks@, c),
            );
            conn@ == parts.flatten() && offs@ == offsets_of_parts(parts)
        },
{
    let cells = &blocks[k].cells;
    let ghost cv = cells_of(blocks@[k as int]);
    let ghost parts = cv.map_values(|c: Seq<usize>| cell_refs(blocks@, c));
    let mut conn: Vec<i64> = Vec::new();
    let mut offs: Vec<i64> = Vec::new();
    offs.push(0);
    assert(offs@ =~= Seq::new(1, |t: int| parts.take(t).flatten().len() as i64)) by {
        assert(parts.take(0) =~= Seq::<Seq<i64>>::empty());
    }
    let mut i: usize = 0;
    while i < cells.len()
        invariant
            i <= cells.len(),
            k < blocks.len(),
            cells == &blocks@[k as int].cells,
            cv == cells_of(blocks@[k as int]),
            cv.len() == cells.len(),
            parts == cv.map_values(|c: Seq<usize>| cell_refs(blocks@, c)),
            plannable(blocks@),
            pg == pgon_info(blocks@),
            forall|c: int| 0 <= c < i ==> #[trigger] cell_refs_ok(blocks@, cv[c]),
            conn@ == parts.take(i as int).flatten(),
            offs@ == Seq::new((i + 1) as nat, |t: int| parts.take(t).flatten().len() as i64),
        decreases cells.len() - i,
    {
        let faces = split_cell_faces(&cells[i]);
        let ghost cell = cv[i as int];
        let ghost fv = faces@.map_values(|f: Vec<usize>| f@);
        assert(cell == cells@[i as int]@);
        let ghost before = conn@;
        let mut t: usize = 0;
        while t < faces.len()
            invariant
                t <= faces.len(),
                i < cells.len(),
                cv.len() == cells.len(),
                cell == cv[i as int],
                fv == faces@.map_values(|f: Vec<usize>| f@),
                fv == split_faces(cell),
                plannable(blocks@),
                pg == pgon_info(blocks@),
                k < blocks.len(),
                cv == cells_of(blocks@[k as int]),
                forall|u: int| 0 <= u < t ==> (#[trigger] face_ref(blocks@, fv[u])) is Some,
                conn@ == before + fv.take(t as int).map_values(
                    |f: Seq<usize>| face_ref(blocks@, f).unwrap(),
                ),
            decreases faces.len() - t,
        {
            assert(fv[t as int] == faces@[t as int]@);
            match encode_face_ref(blocks, pg, &faces[t]) {
                None => {
                    assert(face_ref(blocks@, split_faces(cell)[t as int]) is None);
                    assert(!cell_refs_ok(blocks@, cv[i as int]));
                    return None;
                },
                Some(r) => {
                    conn.push(r);
                    assert(fv.take(t + 1).map_values(|f: Seq<usize>| face_ref(blocks@, f).unwrap())
                        =~= fv.take(t as int).map_values(
                        |f: Seq<usize>| face_ref(blocks@, f).unwrap(),
                    ).push(r));
                },
            }
            t = t + 1;
        }
        proof {
            assert(fv.take(faces.len() as int) =~= fv);
            assert(cell_refs_ok(blocks@, cell));
            assert(parts[i as int] == cell_refs(blocks@, cell));
            assert(parts.take(i + 1) =~= parts.take(i as int).push(parts[i as int]));
            parts.take(i as int).lemma_flatten_push(parts[i as int]);
        }
        offs.push(conn.len() as i64);
        assert(offs@ =~= Seq::new((i + 2) as nat, |t: int| parts.take(t).flatten().len() as i64));
        i = i + 1;
    }
    assert(parts.take(cells.len() as int) =~= parts);
    Some((conn, offs))
}


/// Position and first element index of the first polygon block.
fn find_pgon_block(blocks: &Vec<CellBlock>) -> (r: Option<(usize, i64)>)
    requires
        count_before(blocks@, blocks.len() as int) < i64::MAX,
    ensures
        r == pgon_info(blocks@),
{
    let mut k: usize = 0;
    let mut start: i64 = 1;
    while k < blocks.len()
        invariant
            k <= blocks.len(),
            count_before(blocks@, blocks.len() as int) < i64::MAX,
            start == block_start(blocks@, k as int),
            first_kind(blocks@, ElementKind::PGON, 0) == first_kind(
                blocks@,
                ElementKind::PGON,
                k as int,
            ),
        decreases blocks.len() - k,
    {
        proof {
            lemma_count_before_monotone(blocks@, 0, k as int);
            lemma_count_before_monotone(blocks@, k as int + 1, blocks.len() as int);
        }
        if blocks[k].kind == ElementKind::PGON {
            return Some((k, start));
        }
        start = start + blocks[k].cells.len() as i64;
        k = k + 1;
    }
    None
}

/// Plans the `Elements_t` sections of a mesh given by its blocks, in block
/// order: contiguous 1-based element ranges, 1-based connectivity, start
/// offsets for polygon and polyhedron sections, and signed face references
/// for polyhedra. Refused when a polyhedron face holds nodes that no polygon
/// of the mesh holds.
pub fn plan_element_sections(blocks: &Vec<CellBlock>) -> (r: Result<Vec<SectionPlan>, WriteError>)
    requires
        plannable(blocks@),
    ensures
        match plan_sections(blocks@) {
            Ok(v) => r matches Ok(p) && plans_view(p@) == v,
            Err(e) => r == Err::<Vec<SectionPlan>, WriteError>(e),
        },
{
    let pg = find_pgon_block(blocks);
    let mut plans: Vec<SectionPlan> = Vec::new();
    let mut k: usize = 0;
    let mut start: i64 = 1;
    while k < blocks.len()
        invariant
            k <= blocks.len(),
            plannable(blocks@),
            pg == pgon_info(blocks@),
            start == block_start(blocks@, k as int),
            forall|t: int| 0 <= t < k ==> (#[trigger] plan_block(blocks@, t)) is Some,
            plans_view(plans@) == Seq::new(
                k as nat,
                |t: int| plan_block(blocks@, t).unwrap(),
            ),
        decreases blocks.len() - k,
    {
        proof {
            lemma_count_before_monotone(blocks@, 0, k as int);
            lemma_count_before_monotone(blocks@, k as int + 1, blocks.len() as int);
        }
        let b = &blocks[k];
        assert(spec_cgns_code(blocks@[k as int].kind) is Some);
        let code = element_type_to_cgns(b.kind);
        let n = b.cells.len() as i64;
        let end = start + n - 1;
        let ghost cv = cells_of(blocks@[k as int]);
        let plan = match b.kind {
            ElementKind::PHED => match encode_phed_cells(blocks, k, pg) {
                None => {
                    assert(plan_block(blocks@, k as int) is None);
                    return Err(WriteError::FaceNotInPolygons);
                },
                Some((conn, offs)) => SectionPlan {
                    kind: b.kind,
                    cgns_code: code,
                    range_start: start,
                    range_end: end,
                    connectivity: conn,
                    start_offsets: Some(offs),
                },
            },
            kind => {
                proof {
                    assert forall|c: int, t: int|
                        0 <= c < b.cells.len() && 0 <= t < #[trigger] b.cells@[c]@.len() implies (
                        #[trigger] b.cells@[c]@[t] as i64) != i64::MAX by {
                        assert(blocks@[k as int].cells@[c]@.len() > t);
                    }
                }
                let (conn, offs) = encode_cells(&b.cells);
                SectionPlan {
                    kind,
                    cgns_code: code,
                    range_start: start,
                    range_end: end,
                    connectivity: conn,
                    start_offsets: if kind == ElementKind::PGON {
                        Some(offs)
                    } else {
                        None
                    },
                }
            },
        };
        proof {
            assert(plan@ == plan_block(blocks@, k as int).unwrap());
        }
        let ghost before = plans@;
        let ghost pv = plan@;
        plans.push(plan);
        proof {
            assert(plans@ == before.push(plan));
            lemma_plans_view_push(before, plan);
            assert(plans_view(plans@) =~= Seq::new(
                (k + 1) as nat,
                |t: int| plan_block(blocks@, t).unwrap(),
            ));
        }
        start = start + n;
        k = k + 1;
    }
    proof {
        assert(plans_view(plans@) =~= Seq::new(
            blocks@.len(),
            |t: int| plan_block(blocks@, t).unwrap(),
        ));
    }
    Ok(plans)
}


/// Whether `plan_element_sections` can plan the blocks without fault: every
/// kind has a CGNS code, the element count fits, and every node of a polygon
/// or fixed-size cell can be made 1-based.
pub fn sections_plannable(blocks: &Vec<CellBlock>) -> (r: bool)
    ensures
        r == plannable(blocks@),
{
    let mut total: u64 = 0;
    let mut k: usize = 0;
    while k < blocks.len()
        invariant
            k <= blocks.len(),
            total == count_before(blocks@, k as int),
            total < i64::MAX,
            forall|j: int| 0 <= j < k ==> (#[trigger] spec_cgns_code(blocks@[j].kind)) is Some,
            forall|j: int, c: int, t: int|
                0 <= j < k && blocks@[j].kind != ElementKind::PHED && 0 <= c < blocks@[j].cells.len()
                    && 0 <= t < #[trigger] blocks@[j].cells@[c]@.len() ==> (
                #[trigger] blocks@[j].cells@[c]@[t] as i64) != i64::MAX,
        decreases blocks.len() - k,
    {
        let b = &blocks[k];
        if crate::kinds::cgns_code_of(b.kind).is_none() {
            return false;
        }
        if b.cells.len() as u64 >= i64::MAX as u64 - total {
            proof {
                lemma_count_before_monotone(blocks@, k as int + 1, blocks.len() as int);
            }
            return false;
        }
        if b.kind != ElementKind::PHED {
            let mut c: usize = 0;
            while c < b.cells.len()
                invariant
                    c <= b.cells.len(),
                    k < blocks.len(),
                    b == &blocks@[k as int],
                    b.kind != ElementKind::PHED,
                    forall|c2: int, t: int|
                        0 <= c2 < c && 0 <= t < #[trigger] b.cells@[c2]@.len() ==> (
                        #[trigger] b.cells@[c2]@[t] as i64) != i64::MAX,
                decreases b.cells.len() - c,
            {
                let cell = &b.cells[c];
                let mut t: usize = 0;
                while t < cell.len()
                    invariant
                        t <= cell.len(),
                        k < blocks.len(),
                        c < b.cells.len(),
                        b == &blocks@[k as int],
                        b.kind != ElementKind::PHED,
                        cell == &b.cells@[c as int],
                        forall|u: int| 0 <= u < t ==> (#[trigger] cell@[u] as i64) != i64::MAX,
                    decreases cell.len() - t,
                {
                    if cell[t] as i64 == i64::MAX {
                        assert(blocks@[k as int].cells@[c as int]@[t as int] as i64 == i64::MAX);
                        return false;
                    }
                    t = t + 1;
                }
                c = c + 1;
            }
        }
        total = total + b.cells.len() as u64;
        k = k + 1;
    }
    true
}

} // verus!
