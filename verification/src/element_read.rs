//! Decoding the `Elements_t` sections of a CGNS zone into mesh cells.
//!
//! Fixed-stride sections hold 1-based node indices, `stride` per element.
//! Polygon sections (`NGON_n`) hold a flat node array and start offsets.
//! Polyhedron sections (`NFACE_n`) hold, per cell, signed 1-based references
//! to faces of the polygon section; a negative reference means the face is
//! seen reversed. A polyhedron cell is stored as the node lists of its faces,
//! each followed by the separator `usize::MAX`.
use crate::cells::{cells_view, lemma_cells_view_push, CellView, MeshCell};
use crate::kinds::{
    cgns_element_info, spec_cgns_kind, spec_cgns_stride, CgnsElementInfo, ElementKind,
};
use vstd::prelude::*;

verus! {

/// The arrays that one `Elements_t` section holds, as read from the file.
#[derive(Clone, Debug)]
pub struct ElementSection {
    /// First value of the section's own data: the CGNS element-type code.
    pub type_code: i32,
    /// `ElementRange`: first and last element index of the section, when it was read.
    pub element_range: Option<(i64, i64)>,
    /// `ElementConnectivity`.
    pub connectivity: Vec<i64>,
    /// `ElementStartOffset`, when the section has one.
    pub start_offsets: Option<Vec<i64>>,
}

/// Mathematical view of an element section.
pub struct SectionView {
    pub type_code: i32,
    pub element_range: Option<(i64, i64)>,
    pub connectivity: Seq<i64>,
    pub start_offsets: Option<Seq<i64>>,
}

impl View for ElementSection {
    type V = SectionView;

    open spec fn view(&self) -> SectionView {
        SectionView {
            type_code: self.type_code,
            element_range: self.element_range,
            connectivity: self.connectivity@,
            start_offsets: match self.start_offsets {
                Some(o) => Some(o@),
                None => None,
            },
        }
    }
}

/// Views of a sequence of sections.
pub open spec fn sections_view(s: Seq<ElementSection>) -> Seq<SectionView> {
    s.map_values(|e: ElementSection| e@)
}

/// A reason for which the reader refuses a zone's element sections.
#[derive(Clone, Copy, Debug, PartialEq, Eq, Structural)]
pub enum ReadError {
    /// A polygon or polyhedron section has no `ElementStartOffset`.
    MissingStartOffsets(ElementKind),
}

/// Separator that ends each face of a polyhedron cell.
pub open spec fn face_separator() -> usize {
    usize::MAX
}

/// 0-based node index of a stored 1-based value.
pub open spec fn node_index(v: i64) -> usize {
    ((v as usize) - 1) as usize
}

/// Every stored value can be turned into a 0-based index without underflow.
pub open spec fn nodes_decodable(s: Seq<i64>) -> bool {
    forall|k: int| 0 <= k < s.len() ==> (#[trigger] s[k] as usize) != 0
}

/// 0-based node indices of stored values.
pub open spec fn decode_nodes(s: Seq<i64>) -> Seq<usize> {
    s.map_values(|v: i64| node_index(v))
}

/// Number of elements that an element range covers, `None` where the
/// arithmetic `last - first + 1` overflows.
pub open spec fn range_count(r: (i64, i64)) -> Option<usize> {
    let d = r.1 - r.0;
    if d < i64::MIN || d + 1 > i64::MAX {
        None
    } else {
        Some(((d + 1) as i64) as usize)
    }
}

/// Offsets `off[i]`, `off[i+1]` as slice bounds.
pub open spec fn slice_start(off: Seq<i64>, i: int) -> int {
    (off[i] as usize) as int
}

pub open spec fn slice_end(off: Seq<i64>, i: int) -> int {
    (off[i + 1] as usize) as int
}

/// The stored values of item `i` of an offset-indexed array.
pub open spec fn item(conn: Seq<i64>, off: Seq<i64>, i: int) -> Seq<i64> {
    conn.subrange(slice_start(off, i), slice_end(off, i))
}

/// Item `i` of an offset-indexed array can be taken and decoded.
pub open spec fn item_ok(conn: Seq<i64>, off: Seq<i64>, i: int) -> bool {
    &&& i + 1 < off.len()
    &&& slice_start(off, i) <= slice_end(off, i) <= conn.len()
    &&& nodes_decodable(item(conn, off, i))
}

/// A fixed-stride section of `n` elements decodes without fault.
pub open spec fn regular_ok(conn: Seq<i64>, n: usize, stride: usize) -> bool {
    &&& n * stride <= conn.len()
    &&& nodes_decodable(conn.take(n * stride))
}

/// Cells of a fixed-stride section.
pub open spec fn regular_cells(kind: ElementKind, conn: Seq<i64>, n: usize, stride: usize) -> Seq<
    CellView,
> {
    Seq::new(
        n as nat,
        |i: int| (kind, decode_nodes(conn.subrange(i * stride, i * stride + stride)), None),
    )
}

/// A polygon section of `n` cells decodes without fault.
pub open spec fn pgon_ok(conn: Seq<i64>, off: Seq<i64>, n: usize) -> bool {
    forall|i: int| 0 <= i < n ==> #[trigger] item_ok(conn, off, i)
}

/// Cells of a polygon section.
pub open spec fn pgon_cells(conn: Seq<i64>, off: Seq<i64>, n: usize) -> Seq<CellView> {
    Seq::new(n as nat, |i: int| (ElementKind::PGON, decode_nodes(item(conn, off, i)), None))
}

/// Magnitude of a signed face reference, as an index value.
pub open spec fn face_ref_magnitude(r: i64) -> usize {
    ((if r < 0 {
        -r
    } else {
        r as int
    }) as u64) as usize
}

/// 0-based index of the face that a signed reference names.
pub open spec fn face_position(r: i64) -> int {
    face_ref_magnitude(r) - 1
}

/// A face reference can be resolved against the polygon arrays.
pub open spec fn face_ref_ok(r: i64, fconn: Seq<i64>, foff: Seq<i64>) -> bool {
    face_ref_magnitude(r) != 0 && item_ok(fconn, foff, face_position(r))
}

/// Nodes of the face that a reference names, in the orientation that the sign
/// gives, followed by the face separator.
pub open spec fn face_part(r: i64, fconn: Seq<i64>, foff: Seq<i64>) -> Seq<usize> {
    let nodes = decode_nodes(item(fconn, foff, face_position(r)));
    (if r < 0 {
        nodes.reverse()
    } else {
        nodes
    }).push(face_separator())
}

/// Node list of polyhedron cell `i`.
pub open spec fn phed_nodes(
    pconn: Seq<i64>,
    poff: Seq<i64>,
    fconn: Seq<i64>,
    foff: Seq<i64>,
    i: int,
) -> Seq<usize> {
    face_parts(item(pconn, poff, i), fconn, foff).flatten()
}

/// The face parts that a sequence of references names.
pub open spec fn face_parts(refs: Seq<i64>, fconn: Seq<i64>, foff: Seq<i64>) -> Seq<Seq<usize>> {
    refs.map_values(|r: i64| face_part(r, fconn, foff))
}

/// Number of cells of a polyhedron section.
pub open spec fn phed_count(poff: Seq<i64>) -> int {
    poff.len() - 1
}

/// Polyhedron cell `i` can be taken and every face it names resolved.
pub open spec fn phed_cell_ok(
    pconn: Seq<i64>,
    poff: Seq<i64>,
    fconn: Seq<i64>,
    foff: Seq<i64>,
    i: int,
) -> bool {
    &&& slice_start(poff, i) <= slice_end(poff, i) <= pconn.len()
    &&& forall|j: int|
        0 <= j < item(pconn, poff, i).len() ==> #[trigger] face_ref_ok(
            item(pconn, poff, i)[j],
            fconn,
            foff,
        )
}

/// The polyhedron section resolves without fault against the polygon section.
pub open spec fn phed_ok(pconn: Seq<i64>, poff: Seq<i64>, fconn: Seq<i64>, foff: Seq<i64>) -> bool {
    &&& poff.len() >= 1
    &&& forall|i: int|
        0 <= i < phed_count(poff) ==> #[trigger] phed_cell_ok(pconn, poff, fconn, foff, i)
}

/// Cells of a polyhedron section.
pub open spec fn phed_cells(pconn: Seq<i64>, poff: Seq<i64>, fconn: Seq<i64>, foff: Seq<i64>) -> Seq<
    CellView,
> {
    Seq::new(
        phed_count(poff) as nat,
        |i: int| (ElementKind::PHED, phed_nodes(pconn, poff, fconn, foff, i), None),
    )
}

/// Where the reading of a list of sections stands.
pub enum DecodeOutcome {
    /// Reading goes on: the cells so far, and the last polygon and polyhedron
    /// sections seen (by position).
    Decoded { cells: Seq<CellView>, last_pgon: Option<int>, last_phed: Option<int> },
    /// The sections are refused with this error.
    Failed(ReadError),
    /// The sections are malformed: indices out of bounds, overflow or zero node values.
    Malformed,
}

/// Effect of section `s` (at position `j`) on the reading state.
pub open spec fn decode_step(
    cells: Seq<CellView>,
    last_pgon: Option<int>,
    last_phed: Option<int>,
    s: SectionView,
    j: int,
) -> DecodeOutcome {
    match spec_cgns_kind(s.type_code) {
        None => DecodeOutcome::Decoded { cells, last_pgon, last_phed },
        Some(ElementKind::PGON) => match s.start_offsets {
            None => DecodeOutcome::Failed(ReadError::MissingStartOffsets(ElementKind::PGON)),
            Some(off) => match s.element_range {
                None => DecodeOutcome::Malformed,
                Some(r) => match range_count(r) {
                    None => DecodeOutcome::Malformed,
                    Some(n) => if pgon_ok(s.connectivity, off, n) {
                        DecodeOutcome::Decoded {
                            cells: cells + pgon_cells(s.connectivity, off, n),
                            last_pgon: Some(j),
                            last_phed,
                        }
                    } else {
                        DecodeOutcome::Malformed
                    },
                },
            },
        },
        Some(ElementKind::PHED) => match s.start_offsets {
            None => DecodeOutcome::Failed(ReadError::MissingStartOffsets(ElementKind::PHED)),
            Some(_) => DecodeOutcome::Decoded { cells, last_pgon, last_phed: Some(j) },
        },
        Some(kind) => match s.element_range {
            None => DecodeOutcome::Malformed,
            Some(r) => match range_count(r) {
                None => DecodeOutcome::Malformed,
                Some(n) => {
                    let k = spec_cgns_stride(s.type_code).unwrap();
                    if regular_ok(s.connectivity, n, k) {
                        DecodeOutcome::Decoded {
                            cells: cells + regular_cells(kind, s.connectivity, n, k),
                            last_pgon,
                            last_phed,
                        }
                    } else {
                        DecodeOutcome::Malformed
                    }
                },
            },
        },
    }
}

/// First pass over the sections: fixed-stride and polygon cells, in section
/// order, and the positions of the last polygon and polyhedron sections.
pub open spec fn decode_first_pass(secs: Seq<SectionView>) -> DecodeOutcome
    decreases secs.len(),
{
    if secs.len() == 0 {
        DecodeOutcome::Decoded { cells: Seq::empty(), last_pgon: None, last_phed: None }
    } else {
        match decode_first_pass(secs.drop_last()) {
            DecodeOutcome::Decoded { cells, last_pgon, last_phed } => decode_step(
                cells,
                last_pgon,
                last_phed,
                secs.last(),
                secs.len() - 1,
            ),
            other => other,
        }
    }
}

/// The whole reading: the first pass, then the cells of the last polyhedron
/// section resolved against the last polygon section, when both exist.
pub open spec fn decode_sections(secs: Seq<SectionView>) -> DecodeOutcome {
    match decode_first_pass(secs) {
        DecodeOutcome::Decoded { cells, last_pgon, last_phed } => match (last_phed, last_pgon) {
            (Some(ph), Some(pg)) => {
                let p = secs[ph];
                let f = secs[pg];
                if phed_ok(p.connectivity, p.start_offsets.unwrap(), f.connectivity, f.start_offsets.unwrap()) {
                    DecodeOutcome::Decoded {
                        cells: cells + phed_cells(
                            p.connectivity,
                            p.start_offsets.unwrap(),
                            f.connectivity,
                            f.start_offsets.unwrap(),
                        ),
                        last_pgon,
                        last_phed,
                    }
                } else {
                    DecodeOutcome::Malformed
                }
            },
            _ => DecodeOutcome::Decoded { cells, last_pgon, last_phed },
        },
        other => other,
    }
}

/// What a reading gives, without the section positions that it tracks.
pub open spec fn decoded_result(o: DecodeOutcome) -> Option<Result<Seq<CellView>, ReadError>> {
    match o {
        DecodeOutcome::Decoded { cells, .. } => Some(Ok(cells)),
        DecodeOutcome::Failed(e) => Some(Err(e)),
        DecodeOutcome::Malformed => None,
    }
}

/// A polyhedron (`NFACE_n`) section.
pub open spec fn is_phed_section(s: SectionView) -> bool {
    spec_cgns_kind(s.type_code) == Some(ElementKind::PHED)
}

/// Position of a section after a section was inserted at `i`.
pub open spec fn shifted(pos: Option<int>, i: int) -> Option<int> {
    match pos {
        Some(x) => Some(
            if x >= i {
                x + 1
            } else {
                x
            },
        ),
        None => None,
    }
}

/// Without polyhedron sections, the first pass records none, and the polygon
/// section it records is one of the sections read.
proof fn lemma_first_pass_no_phed(secs: Seq<SectionView>)
    requires
        forall|j: int| 0 <= j < secs.len() ==> !is_phed_section(#[trigger] secs[j]),
    ensures
        decode_first_pass(secs) matches DecodeOutcome::Decoded { last_pgon, last_phed, .. } ==> (
        last_phed is None && (last_pgon matches Some(x) ==> 0 <= x < secs.len())),
    decreases secs.len(),
{
    if secs.len() > 0 {
        lemma_first_pass_no_phed(secs.drop_last());
        assert(!is_phed_section(secs[secs.len() - 1]));
    }
}

/// The first pass over sections with a polyhedron section inserted at `i`:
/// the same cells and outcome as without it, the polyhedron section recorded
/// at `i`, and the polygon section's position shifted past it.
proof fn lemma_first_pass_insert(secs: Seq<SectionView>, s: SectionView, i: int, m: int)
    requires
        forall|j: int| 0 <= j < secs.len() ==> !is_phed_section(#[trigger] secs[j]),
        is_phed_section(s),
        s.start_offsets is Some,
        0 <= i <= m <= secs.len(),
    ensures
        decode_first_pass(secs.insert(i, s).take(m + 1)) == match decode_first_pass(secs.take(m)) {
            DecodeOutcome::Decoded { cells, last_pgon, .. } => DecodeOutcome::Decoded {
                cells,
                last_pgon: shifted(last_pgon, i),
                last_phed: Some(i),
            },
            other => other,
        },
    decreases m,
{
    let l = secs.insert(i, s);
    lemma_first_pass_no_phed(secs.take(m));
    if m == i {
        assert(l.take(m + 1).drop_last() =~= secs.take(m));
        assert(l.take(m + 1).last() == s);
    } else {
        lemma_first_pass_insert(secs, s, i, m - 1);
        assert(l.take(m + 1).drop_last() =~= l.take(m));
        assert(l.take(m + 1).last() == secs[m - 1]);
        assert(secs.take(m).drop_last() =~= secs.take(m - 1));
        assert(secs.take(m).last() == secs[m - 1]);
        assert(!is_phed_section(secs[m - 1]));
        lemma_first_pass_no_phed(secs.take(m - 1));
    }
}

/// The cells read do not depend on where the polyhedron section sits among
/// the sections: with one `NFACE_n` section (which has start offsets), the
/// reading gives the same cells, or the same refusal, or is malformed alike,
/// wherever that section is placed.
pub proof fn law_phed_section_position(secs: Seq<SectionView>, s: SectionView, i: int, i2: int)
    requires
        forall|j: int| 0 <= j < secs.len() ==> !is_phed_section(#[trigger] secs[j]),
        is_phed_section(s),
        s.start_offsets is Some,
        0 <= i <= secs.len(),
        0 <= i2 <= secs.len(),
    ensures
        decoded_result(decode_sections(secs.insert(i, s))) == decoded_result(
            decode_sections(secs.insert(i2, s)),
        ),
{
    let n = secs.len() as int;
    lemma_first_pass_insert(secs, s, i, n);
    lemma_first_pass_insert(secs, s, i2, n);
    lemma_first_pass_no_phed(secs);
    assert(secs.take(n) =~= secs);
    assert(secs.insert(i, s).take(n + 1) =~= secs.insert(i, s));
    assert(secs.insert(i2, s).take(n + 1) =~= secs.insert(i2, s));
    match decode_first_pass(secs) {
        DecodeOutcome::Decoded { cells, last_pgon, .. } => {
            match last_pgon {
                Some(x) => {
                    assert(secs.insert(i, s)[i] == s);
                    assert(secs.insert(i2, s)[i2] == s);
                    assert(secs.insert(i, s)[shifted(last_pgon, i).unwrap()] == secs[x]);
                    assert(secs.insert(i2, s)[shifted(last_pgon, i2).unwrap()] == secs[x]);
                },
                None => {},
            }
        },
        _ => {},
    }
}

// ---------------------------------------------------------------------------
// Executable decoding.

/// Decodes a stored 1-based value; `None` where the index would underflow.
fn decode_node(v: i64) -> (r: Option<usize>)
    ensures
        r == (if (v as usize) != 0 {
            Some(node_index(v))
        } else {
            None
        }),
{
    let u = v as usize;
    if u == 0 {
        None
    } else {
        Some(u - 1)
    }
}

/// Decodes `conn[start..end]`, `None` where a value is not decodable.
fn decode_slice(conn: &Vec<i64>, start: usize, end: usize) -> (r: Option<Vec<usize>>)
    requires
        start <= end <= conn.len(),
    ensures
        r.is_some() == nodes_decodable(conn@.subrange(start as int, end as int)),
        r matches Some(v) ==> v@ == decode_nodes(conn@.subrange(start as int, end as int)),
{
    let ghost s = conn@.subrange(start as int, end as int);
    let mut out: Vec<usize> = Vec::new();
    let mut i = start;
    while i < end
        invariant
            start <= i <= end <= conn.len(),
            s == conn@.subrange(start as int, end as int),
            out@ == decode_nodes(s.take(i - start)),
            nodes_decodable(s.take(i - start)),
        decreases end - i,
    {
        match decode_node(conn[i]) {
            None => {
                assert(s[i - start] == conn@[i as int]);
                return None;
            },
            Some(x) => {
                out.push(x);
                assert(s.take(i + 1 - start) =~= s.take(i - start).push(conn@[i as int]));
                assert(out@ =~= decode_nodes(s.take(i + 1 - start)));
            },
        }
        i = i + 1;
    }
    assert(s.take(end - start) =~= s);
    Some(out)
}

/// Number of elements of a range; `None` where `last - first + 1` overflows.
fn section_count(r: (i64, i64)) -> (n: Option<usize>)
    ensures
        n == range_count(r),
{
    let d: i128 = r.1 as i128 - r.0 as i128;
    if d < i64::MIN as i128 || d + 1 > i64::MAX as i128 {
        None
    } else {
        let c: i64 = (d + 1) as i64;
        Some(c as usize)
    }
}


/// Appends the cells of a fixed-stride section; `false` where the section is malformed.
fn push_regular_cells(
    kind: ElementKind,
    conn: &Vec<i64>,
    n: usize,
    stride: usize,
    cells: &mut Vec<MeshCell>,
) -> (ok: bool)
    requires
        stride >= 1,
    ensures
        ok == regular_ok(conn@, n, stride),
        ok ==> cells_view(final(cells)@) == cells_view(old(cells)@) + regular_cells(
            kind,
            conn@,
            n,
            stride,
        ),
{
    let ghost base = cells_view(cells@);
    let mut i: usize = 0;
    let mut start: usize = 0;
    while i < n
        invariant
            i <= n,
            stride >= 1,
            start == i * stride,
            start <= conn.len(),
            nodes_decodable(conn@.take(start as int)),
            cells_view(cells@) == base + regular_cells(kind, conn@, i, stride),
        decreases n - i,
    {
        if stride > conn.len() - start {
            proof {
                assert(i + 1 <= n);
                assert((i + 1) * stride <= n * stride) by (nonlinear_arith)
                    requires
                        i + 1 <= n,
                ;
                assert((i + 1) * stride == i * stride + stride) by (nonlinear_arith);
            }
            return false;
        }
        let end = start + stride;
        match decode_slice(conn, start, end) {
            None => {
                proof {
                    assert((i + 1) * stride == i * stride + stride) by (nonlinear_arith);
                    assert((i + 1) * stride <= n * stride) by (nonlinear_arith)
                        requires
                            i + 1 <= n,
                    ;
                    assert(end <= n * stride);
                    if n * stride <= conn.len() && nodes_decodable(conn@.take(n * stride)) {
                        assert forall|k: int|
                            0 <= k < conn@.subrange(start as int, end as int).len() implies (
                            #[trigger] conn@.subrange(start as int, end as int)[k] as usize)
                            != 0 by {
                            assert(start + k < n * stride);
                            assert(conn@.subrange(start as int, end as int)[k] == conn@.take(
                                n * stride,
                            )[start + k]);
                        }
                    }
                }
                return false;
            },
            Some(nodes) => {
                let ghost old_cells = cells@;
                cells.push(MeshCell { kind, nodes, family: None });
                proof {
                    lemma_cells_view_push(old_cells, MeshCell { kind, nodes, family: None });
                    assert((i + 1) * stride == i * stride + stride) by (nonlinear_arith);
                    assert(regular_cells(kind, conn@, (i + 1) as usize, stride) =~= regular_cells(
                        kind,
                        conn@,
                        i,
                        stride,
                    ).push((kind, decode_nodes(conn@.subrange(start as int, end as int)), None)));
                    assert forall|k: int| 0 <= k < end implies (#[trigger] conn@.take(
                        end as int,
                    )[k] as usize) != 0 by {
                        if k < start {
                            assert(conn@.take(end as int)[k] == conn@.take(start as int)[k]);
                        } else {
                            assert(conn@.take(end as int)[k] == conn@.subrange(
                                start as int,
                                end as int,
                            )[k - start]);
                        }
                    }
                }
                start = end;
            },
        }
        i = i + 1;
    }
    true
}


/// Bounds of item `i` of an offset-indexed array, where they are usable.
fn item_bounds(conn: &Vec<i64>, off: &Vec<i64>, i: usize) -> (r: Option<(usize, usize)>)
    ensures
        r.is_some() == (i + 1 < off.len() && slice_start(off@, i as int) <= slice_end(off@, i as int)
            <= conn.len()),
        r matches Some((a, b)) ==> a == slice_start(off@, i as int) && b == slice_end(
            off@,
            i as int,
        ),
{
    if i >= off.len() || off.len() - i < 2 {
        return None;
    }
    let a = off[i] as usize;
    let b = off[i + 1] as usize;
    if a <= b && b <= conn.len() {
        Some((a, b))
    } else {
        None
    }
}

/// Appends the cells of a polygon section; `false` where the section is malformed.
fn push_pgon_cells(conn: &Vec<i64>, off: &Vec<i64>, n: usize, cells: &mut Vec<MeshCell>) -> (ok:
    bool)
    ensures
        ok == pgon_ok(conn@, off@, n),
        ok ==> cells_view(final(cells)@) == cells_view(old(cells)@) + pgon_cells(conn@, off@, n),
{
    let ghost base = cells_view(cells@);
    let mut i: usize = 0;
    while i < n
        invariant
            i <= n,
            forall|k: int| 0 <= k < i ==> #[trigger] item_ok(conn@, off@, k),
            cells_view(cells@) == base + pgon_cells(conn@, off@, i),
        decreases n - i,
    {
        match item_bounds(conn, off, i) {
            None => {
                assert(!item_ok(conn@, off@, i as int));
                return false;
            },
            Some((a, b)) => match decode_slice(conn, a, b) {
                None => {
                    assert(!item_ok(conn@, off@, i as int));
                    return false;
                },
                Some(nodes) => {
                    let ghost old_cells = cells@;
                    cells.push(MeshCell { kind: ElementKind::PGON, nodes, family: None });
                    proof {
                        lemma_cells_view_push(
                            old_cells,
                            MeshCell { kind: ElementKind::PGON, nodes, family: None },
                        );
                        assert(pgon_cells(conn@, off@, (i + 1) as usize) =~= pgon_cells(
                            conn@,
                            off@,
                            i,
                        ).push((ElementKind::PGON, decode_nodes(item(conn@, off@, i as int)), None)));
                        assert(item_ok(conn@, off@, i as int));
                    }
                },
            },
        }
        i = i + 1;
    }
    true
}


/// Magnitude of a signed face reference.
fn face_magnitude(r: i64) -> (m: usize)
    ensures
        m == face_ref_magnitude(r),
{
    let a: u64 = if r < 0 {
        (0i128 - r as i128) as u64
    } else {
        r as u64
    };
    a as usize
}

/// Appends a face's nodes, reversed when asked, and the face separator.
fn append_face(cell: &mut Vec<usize>, nodes: &Vec<usize>, reversed: bool)
    ensures
        final(cell)@ == old(cell)@ + (if reversed {
            nodes@.reverse()
        } else {
            nodes@
        }).push(face_separator()),
{
    let ghost base = cell@;
    let ghost part = if reversed {
        nodes@.reverse()
    } else {
        nodes@
    };
    let n = nodes.len();
    let mut k: usize = 0;
    while k < n
        invariant
            k <= n == nodes.len(),
            part == (if reversed {
                nodes@.reverse()
            } else {
                nodes@
            }),
            part.len() == n,
            cell@ == base + part.take(k as int),
        decreases n - k,
    {
        let x = if reversed {
            nodes[n - 1 - k]
        } else {
            nodes[k]
        };
        cell.push(x);
        assert(part.take(k + 1) =~= part.take(k as int).push(x));
        k = k + 1;
    }
    cell.push(usize::MAX);
    assert(part.take(n as int) =~= part);
    assert(cell@ =~= base + part.push(face_separator()));
}

/// A polyhedron cell with an unresolvable face reference makes the section malformed.
proof fn lemma_bad_ref_breaks_phed(
    pconn: Seq<i64>,
    poff: Seq<i64>,
    fconn: Seq<i64>,
    foff: Seq<i64>,
    i: int,
    t: int,
)
    requires
        0 <= i < phed_count(poff),
        0 <= t < item(pconn, poff, i).len(),
        !face_ref_ok(item(pconn, poff, i)[t], fconn, foff),
    ensures
        !phed_ok(pconn, poff, fconn, foff),
{
    assert(!phed_cell_ok(pconn, poff, fconn, foff, i));
}

/// Appends the cells of the polyhedron section, resolving faces against the
/// polygon section; `false` where either is malformed.
fn push_phed_cells(
    pconn: &Vec<i64>,
    poff: &Vec<i64>,
    fconn: &Vec<i64>,
    foff: &Vec<i64>,
    cells: &mut Vec<MeshCell>,
) -> (ok: bool)
    ensures
        ok == phed_ok(pconn@, poff@, fconn@, foff@),
        ok ==> cells_view(final(cells)@) == cells_view(old(cells)@) + phed_cells(
            pconn@,
            poff@,
            fconn@,
            foff@,
        ),
{
    if poff.len() == 0 {
        return false;
    }
    let n = poff.len() - 1;
    let ghost base = cells_view(cells@);
    let mut i: usize = 0;
    while i < n
        invariant
            i <= n,
            n == poff.len() - 1,
            forall|k: int| 0 <= k < i ==> #[trigger] phed_cell_ok(pconn@, poff@, fconn@, foff@, k),
            cells_view(cells@) == base + phed_cells(pconn@, poff@, fconn@, foff@).take(i as int),
        decreases n - i,
    {
        let (a, b) = match item_bounds(pconn, poff, i) {
            None => {
                assert(!phed_cell_ok(pconn@, poff@, fconn@, foff@, i as int));
                return false;
            },
            Some(ab) => ab,
        };
        let ghost refs = item(pconn@, poff@, i as int);
        let mut cell: Vec<usize> = Vec::new();
        let mut j = a;
        while j < b
            invariant
                i < n,
                n == poff.len() - 1,
                a <= j <= b <= pconn.len(),
                a == slice_start(poff@, i as int),
                b == slice_end(poff@, i as int),
                refs == pconn@.subrange(a as int, b as int),
                forall|t: int| 0 <= t < j - a ==> #[trigger] face_ref_ok(refs[t], fconn@, foff@),
                cell@ == face_parts(refs.take(j - a), fconn@, foff@).flatten(),
            decreases b - j,
        {
            let r = pconn[j];
            assert(refs[j - a] == r);
            let m = face_magnitude(r);
            if m == 0 {
                proof { lemma_bad_ref_breaks_phed(pconn@, poff@, fconn@, foff@, i as int, j - a); }
                return false;
            }
            let face = match item_bounds(fconn, foff, m - 1) {
                None => {
                    proof { lemma_bad_ref_breaks_phed(pconn@, poff@, fconn@, foff@, i as int, j - a); }
                    return false;
                },
                Some((fa, fb)) => match decode_slice(fconn, fa, fb) {
                    None => {
                        proof { lemma_bad_ref_breaks_phed(pconn@, poff@, fconn@, foff@, i as int, j - a); }
                        return false;
                    },
                    Some(v) => v,
                },
            };
            let ghost before = cell@;
            append_face(&mut cell, &face, r < 0);
            proof {
                assert(face_ref_ok(r, fconn@, foff@));
                assert(cell@ == before + face_part(r, fconn@, foff@));
                assert(refs.take(j + 1 - a) =~= refs.take(j - a).push(r));
                assert(face_parts(refs.take(j + 1 - a), fconn@, foff@) =~= face_parts(
                    refs.take(j - a),
                    fconn@,
                    foff@,
                ).push(face_part(r, fconn@, foff@)));
                face_parts(refs.take(j - a), fconn@, foff@).lemma_flatten_push(
                    face_part(r, fconn@, foff@),
                );
            }
            j = j + 1;
        }
        proof {
            assert(refs.take(b - a) =~= refs);
            assert(phed_cell_ok(pconn@, poff@, fconn@, foff@, i as int));
        }
        let ghost old_cells = cells@;
        cells.push(MeshCell { kind: ElementKind::PHED, nodes: cell, family: None });
        proof {
            lemma_cells_view_push(old_cells, MeshCell { kind: ElementKind::PHED, nodes: cell, family: None });
            assert(phed_cells(pconn@, poff@, fconn@, foff@).take(i + 1) =~= phed_cells(
                pconn@,
                poff@,
                fconn@,
                foff@,
            ).take(i as int).push((ElementKind::PHED, phed_nodes(pconn@, poff@, fconn@, foff@, i as int), None)));
        }
        i = i + 1;
    }
    assert(phed_cells(pconn@, poff@, fconn@, foff@).take(n as int) =~= phed_cells(
        pconn@,
        poff@,
        fconn@,
        foff@,
    ));
    true
}


/// Why decoding stopped early.
enum Halt {
    Refused(ReadError),
    Malformed,
}

/// Position as a spec integer.
pub open spec fn opt_int(o: Option<usize>) -> Option<int> {
    match o {
        Some(x) => Some(x as int),
        None => None,
    }
}

/// Decoding with malformed input reported as a halt rather than excluded.
fn decode_core(sections: &[ElementSection]) -> (r: Result<Vec<MeshCell>, Halt>)
    ensures
        match decode_sections(sections_view(sections@)) {
            DecodeOutcome::Decoded { cells, .. } => r matches Ok(v) && cells_view(v@) == cells,
            DecodeOutcome::Failed(e) => r matches Err(Halt::Refused(e2)) && e2 == e,
            DecodeOutcome::Malformed => r matches Err(Halt::Malformed),
        },
{
    let mut cells: Vec<MeshCell> = Vec::new();
    let mut last_pgon: Option<usize> = None;
    let mut last_phed: Option<usize> = None;
    let mut j: usize = 0;
    assert(cells_view(cells@) =~= Seq::<CellView>::empty());
    while j < sections.len()
        invariant
            j <= sections.len(),
            decode_first_pass(sections_view(sections@).take(j as int)) == (DecodeOutcome::Decoded {
                cells: cells_view(cells@),
                last_pgon: opt_int(last_pgon),
                last_phed: opt_int(last_phed),
            }),
            last_pgon matches Some(p) ==> p < j && sections@[p as int].start_offsets is Some,
            last_phed matches Some(p) ==> p < j && sections@[p as int].start_offsets is Some,
            sections_view(sections@).len() == sections@.len(),
        decreases sections.len() - j,
    {
        let s = &sections[j];
        proof {
            let sv = sections_view(sections@);
            assert(sv.take(j + 1).drop_last() =~= sv.take(j as int));
            assert(sv.take(j + 1).last() == sections@[j as int]@);
        }
        match cgns_element_info(s.type_code) {
            None => {},
            Some(info) => match info.element_type {
                ElementKind::PGON => match &s.start_offsets {
                    None => {
                        proof { lemma_first_pass_failed_stays(sections_view(sections@), j as int + 1); }
                        return Err(Halt::Refused(ReadError::MissingStartOffsets(ElementKind::PGON)));
                    },
                    Some(off) => match s.element_range {
                        None => {
                            proof { lemma_first_pass_failed_stays(sections_view(sections@), j as int + 1); }
                            return Err(Halt::Malformed);
                        },
                        Some(rg) => match section_count(rg) {
                            None => {
                                proof { lemma_first_pass_failed_stays(sections_view(sections@), j as int + 1); }
                                return Err(Halt::Malformed);
                            },
                            Some(n) => {
                                if !push_pgon_cells(&s.connectivity, off, n, &mut cells) {
                                    proof { lemma_first_pass_failed_stays(sections_view(sections@), j as int + 1); }
                                    return Err(Halt::Malformed);
                                }
                                last_pgon = Some(j);
                            },
                        },
                    },
                },
                ElementKind::PHED => match &s.start_offsets {
                    None => {
                        proof { lemma_first_pass_failed_stays(sections_view(sections@), j as int + 1); }
                        return Err(Halt::Refused(ReadError::MissingStartOffsets(ElementKind::PHED)));
                    },
                    Some(_) => {
                        last_phed = Some(j);
                    },
                },
                kind => {
                    let stride = match info.nodes_per_cell {
                        Some(k) => k,
                        None => 1,
                    };
                    match s.element_range {
                        None => {
                            proof { lemma_first_pass_failed_stays(sections_view(sections@), j as int + 1); }
                            return Err(Halt::Malformed);
                        },
                        Some(rg) => match section_count(rg) {
                            None => {
                                proof { lemma_first_pass_failed_stays(sections_view(sections@), j as int + 1); }
                                return Err(Halt::Malformed);
                            },
                            Some(n) => {
                                if !push_regular_cells(kind, &s.connectivity, n, stride, &mut cells) {
                                    proof { lemma_first_pass_failed_stays(sections_view(sections@), j as int + 1); }
                                    return Err(Halt::Malformed);
                                }
                            },
                        },
                    }
                },
            },
        }
        j = j + 1;
    }
    assert(sections_view(sections@).take(sections@.len() as int) =~= sections_view(sections@));
    match (last_phed, last_pgon) {
        (Some(ph), Some(pg)) => {
            let p = &sections[ph];
            let f = &sections[pg];
            match (&p.start_offsets, &f.start_offsets) {
                (Some(poff), Some(foff)) => {
                    if !push_phed_cells(&p.connectivity, poff, &f.connectivity, foff, &mut cells) {
                        return Err(Halt::Malformed);
                    }
                },
                _ => {},
            }
        },
        _ => {},
    }
    Ok(cells)
}

/// Once the first pass stops on a prefix, it stops the same way on every longer prefix.
proof fn lemma_first_pass_failed_stays(secs: Seq<SectionView>, k: int)
    requires
        0 < k <= secs.len(),
        !(decode_first_pass(secs.take(k)) is Decoded),
    ensures
        decode_first_pass(secs) == decode_first_pass(secs.take(k)),
        decode_sections(secs) == decode_first_pass(secs.take(k)),
    decreases secs.len() - k,
{
    if k < secs.len() {
        assert(secs.take(k + 1).drop_last() =~= secs.take(k));
        lemma_first_pass_failed_stays(secs, k + 1);
    } else {
        assert(secs.take(k) =~= secs);
    }
}

/// Decodes the element sections of a zone into the cells to add to the mesh,
/// in the order in which they are added: the cells of the fixed-stride and
/// polygon sections in section order, then the cells of the last polyhedron
/// section, whose faces are resolved against the last polygon section (when
/// both exist). Sections with a code this reader does not know are skipped.
pub fn decode_element_sections(sections: &[ElementSection]) -> (r: Result<Vec<MeshCell>, ReadError>)
    requires
        !(decode_sections(sections_view(sections@)) is Malformed),
    ensures
        match decode_sections(sections_view(sections@)) {
            DecodeOutcome::Decoded { cells, .. } => r matches Ok(v) && cells_view(v@) == cells,
            DecodeOutcome::Failed(e) => r == Err::<Vec<MeshCell>, ReadError>(e),
            DecodeOutcome::Malformed => false,
        },
{
    match decode_core(sections) {
        Ok(v) => Ok(v),
        Err(Halt::Refused(e)) => Err(e),
        Err(Halt::Malformed) => Err(ReadError::MissingStartOffsets(ElementKind::PGON)),
    }
}

/// Whether `decode_element_sections` accepts the sections without fault (the
/// sections are not malformed).
pub fn element_sections_decodable(sections: &[ElementSection]) -> (b: bool)
    ensures
        b == !(decode_sections(sections_view(sections@)) is Malformed),
{
    match decode_core(sections) {
        Err(Halt::Malformed) => false,
        _ => true,
    }
}


/// A polyhedron cell that names at least one face ends with the face
/// separator: the reader ends every face with it.
pub proof fn law_phed_cell_ends_with_separator(
    pconn: Seq<i64>,
    poff: Seq<i64>,
    fconn: Seq<i64>,
    foff: Seq<i64>,
    i: int,
)
    requires
        0 <= i < phed_count(poff),
        phed_cell_ok(pconn, poff, fconn, foff, i),
        item(pconn, poff, i).len() > 0,
    ensures
        phed_nodes(pconn, poff, fconn, foff, i).len() > 0,
        phed_nodes(pconn, poff, fconn, foff, i).last() == face_separator(),
{
    let parts = face_parts(item(pconn, poff, i), fconn, foff);
    let n = parts.len() - 1;
    assert(parts =~= parts.drop_last().push(parts[n]));
    parts.drop_last().lemma_flatten_push(parts[n]);
}

} // verus!
