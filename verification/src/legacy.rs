//! The zone reader for length-prefixed polygon sections and boundary-condition
//! families: sections are taken in the order of their element ranges, each
//! element gets a running 1-based index, and an element whose index a
//! boundary condition lists gets that condition's family.
use crate::cells::{cells_view, lemma_cells_view_push, CellView, MeshCell};
use crate::kinds::{cgns_code_to_element_type, nodes_per_cgns_code, spec_cgns_kind, spec_cgns_stride, ElementKind};
use std::collections::HashMap;
use vstd::prelude::*;
use vstd::std_specs::hash::{
    axiom_contains_deref_key, axiom_i32_obeys_hash_table_key_model, axiom_maps_deref_key_to_value,
    axiom_random_state_builds_valid_hashers,
};

verus! {

/// Section `i` comes before section `j` when sorted stably by key.
pub open spec fn key_before(keys: Seq<i32>, i: int, j: int) -> bool {
    keys[i] < keys[j] || (keys[i] == keys[j] && i < j)
}

/// The order in which to read sections: by key (the first value of each
/// section's element range), sections with equal keys in the order given.
pub fn section_order(keys: &[i32]) -> (r: Vec<usize>)
    ensures
        forall|t: int| 0 <= t < r.len() ==> (#[trigger] r@[t]) < keys.len(),
        forall|t1: int, t2: int|
            0 <= t1 < t2 < r.len() ==> key_before(keys@, #[trigger] r@[t1] as int, #[trigger] r@[t2] as int),
        forall|j: int| 0 <= j < keys.len() ==> #[trigger] r@.contains(j as usize),
{
    let mut out: Vec<usize> = Vec::new();
    let mut i: usize = 0;
    while i < keys.len()
        invariant
            i <= keys.len(),
            forall|t: int| 0 <= t < out.len() ==> (#[trigger] out@[t]) < i,
            forall|t1: int, t2: int|
                0 <= t1 < t2 < out.len() ==> key_before(keys@, #[trigger] out@[t1] as int, #[trigger] out@[t2] as int),
            forall|j: int| 0 <= j < i ==> #[trigger] out@.contains(j as usize),
        decreases keys.len() - i,
    {
        let mut p = out.len();
        while p > 0 && keys[out[p - 1]] > keys[i]
            invariant
                p <= out.len(),
                i < keys.len(),
                forall|t: int| 0 <= t < out.len() ==> (#[trigger] out@[t]) < i,
                forall|t: int| p <= t < out.len() ==> keys@[#[trigger] out@[t] as int] > keys@[i as int],
            decreases p,
        {
            p = p - 1;
        }
        let ghost before = out@;
        proof {
            assert forall|t: int| 0 <= t < p implies keys@[#[trigger] before[t] as int] <= keys@[i as int] by {
                if t < p - 1 {
                    assert(key_before(keys@, before[t] as int, before[p - 1] as int));
                }
            }
        }
        out.insert(p, i);
        proof {
            assert(out@ == before.insert(p as int, i));
            assert forall|t1: int, t2: int|
                0 <= t1 < t2 < out.len() implies key_before(keys@, #[trigger] out@[t1] as int, #[trigger] out@[t2] as int) by {
                if t2 < p {
                    assert(key_before(keys@, before[t1] as int, before[t2] as int));
                } else if t2 == p {
                    assert(keys@[before[t1] as int] <= keys@[i as int]);
                } else if t1 < p {
                    assert(key_before(keys@, before[t1] as int, before[t2 - 1] as int));
                } else if t1 == p {
                    assert(keys@[before[t2 - 1] as int] > keys@[i as int]);
                } else {
                    assert(key_before(keys@, before[t1 - 1] as int, before[t2 - 1] as int));
                }
            }
            assert forall|j: int| 0 <= j < i + 1 implies #[trigger] out@.contains(j as usize) by {
                if j < i {
                    assert(before.contains(j as usize));
                    let t = choose|t: int| 0 <= t < before.len() && before[t] == j as usize;
                    if t < p {
                        assert(out@[t] == j as usize);
                    } else {
                        assert(out@[t + 1] == j as usize);
                    }
                } else {
                    assert(out@[p as int] == i);
                }
            }
        }
        i = i + 1;
    }
    out
}


/// One `Elements_t` section as the reader with families sees it.
#[derive(Clone, Debug)]
pub struct LegacySection {
    /// CGNS element-type code.
    pub type_code: i32,
    /// Values of the section's `IndexRange_t` child (read for sections this
    /// reader skips, to keep the running index).
    pub index_range: Vec<i32>,
    /// `ElementConnectivity` (read for sections this reader decodes):
    /// fixed-stride 1-based nodes, or `[n, v1..vn, n, ...]` for polygons and polyhedra.
    pub connectivity: Vec<i32>,
}

/// Where the reading stands: the cells so far and the next element index,
/// or a malformed input (out-of-range values or index arithmetic overflow).
pub enum LegacyOutcome {
    Running { cells: Seq<CellView>, next_index: int },
    Malformed,
}

/// 0-based node index of a stored 1-based value.
pub open spec fn legacy_node(v: i32) -> usize {
    ((v - 1) as i32) as usize
}

/// Every stored value can be turned into an index without overflow.
pub open spec fn legacy_nodes_ok(s: Seq<i32>) -> bool {
    forall|k: int| 0 <= k < s.len() ==> #[trigger] s[k] != i32::MIN
}

pub open spec fn legacy_nodes(s: Seq<i32>) -> Seq<usize> {
    s.map_values(|v: i32| legacy_node(v))
}

/// Family that the boundary conditions give element index `g`.
pub open spec fn family_at(fams: Map<i32, usize>, g: int) -> Option<usize> {
    if fams.contains_key(g as i32) {
        Some(fams[g as i32])
    } else {
        None
    }
}

/// Cells already read, put before what the rest of the reading gives.
pub open spec fn prepend(cells: Seq<CellView>, o: LegacyOutcome) -> LegacyOutcome {
    match o {
        LegacyOutcome::Running { cells: rest, next_index } => LegacyOutcome::Running {
            cells: cells + rest,
            next_index,
        },
        LegacyOutcome::Malformed => LegacyOutcome::Malformed,
    }
}

/// Reading a fixed-stride section from position `start`: chunks of `stride`
/// values (the last one possibly shorter), each an element.
pub open spec fn stride_walk(
    kind: ElementKind,
    conn: Seq<i32>,
    stride: int,
    start: int,
    g: int,
    fams: Map<i32, usize>,
) -> LegacyOutcome
    decreases conn.len() - start,
{
    if stride <= 0 || start < 0 || start >= conn.len() {
        LegacyOutcome::Running { cells: Seq::empty(), next_index: g }
    } else {
        let end = if conn.len() - start < stride {
            conn.len() as int
        } else {
            start + stride
        };
        let chunk = conn.subrange(start, end);
        if !legacy_nodes_ok(chunk) || g + 1 > i32::MAX {
            LegacyOutcome::Malformed
        } else {
            prepend(
                seq![(kind, legacy_nodes(chunk), family_at(fams, g))],
                stride_walk(kind, conn, stride, end, g + 1, fams),
            )
        }
    }
}

/// Reading a length-prefixed section from position `i`; reading stops at an
/// element whose length runs past the end.
pub open spec fn poly_walk(kind: ElementKind, conn: Seq<i32>, i: int, g: int, fams: Map<i32, usize>) -> LegacyOutcome
    decreases conn.len() - i,
{
    if i < 0 || i >= conn.len() {
        LegacyOutcome::Running { cells: Seq::empty(), next_index: g }
    } else {
        let n = (conn[i] as usize) as int;
        let i1 = i + 1;
        if i1 + n > usize::MAX {
            LegacyOutcome::Malformed
        } else if i1 + n > conn.len() {
            LegacyOutcome::Running { cells: Seq::empty(), next_index: g }
        } else {
            let chunk = conn.subrange(i1, i1 + n);
            if !legacy_nodes_ok(chunk) || g + 1 > i32::MAX {
                LegacyOutcome::Malformed
            } else {
                prepend(
                    seq![(kind, legacy_nodes(chunk), family_at(fams, g))],
                    poly_walk(kind, conn, i1 + n, g + 1, fams),
                )
            }
        }
    }
}

/// A skipped section moves the running index past its element range.
pub open spec fn skip_walk(range: Seq<i32>, g: int) -> LegacyOutcome {
    if range.len() < 2 {
        LegacyOutcome::Malformed
    } else {
        let d = range[1] - range[0];
        if d < i32::MIN || d > i32::MAX || d + 1 > i32::MAX || g + d + 1 < i32::MIN || g + d + 1
            > i32::MAX {
            LegacyOutcome::Malformed
        } else {
            LegacyOutcome::Running { cells: Seq::empty(), next_index: g + d + 1 }
        }
    }
}

/// Effect of one section on the reading.
pub open spec fn legacy_section(s: LegacySection, g: int, fams: Map<i32, usize>) -> LegacyOutcome {
    match spec_cgns_kind(s.type_code) {
        None => skip_walk(s.index_range@, g),
        Some(kind) => match spec_cgns_stride(s.type_code) {
            Some(k) => stride_walk(kind, s.connectivity@, k as int, 0, g, fams),
            None => poly_walk(kind, s.connectivity@, 0, g, fams),
        },
    }
}

/// Reading the first `k` sections (in reading order), from element index 1.
pub open spec fn legacy_read(secs: Seq<LegacySection>, fams: Map<i32, usize>, k: int) -> LegacyOutcome
    decreases k,
{
    if k <= 0 {
        LegacyOutcome::Running { cells: Seq::empty(), next_index: 1 }
    } else {
        match legacy_read(secs, fams, k - 1) {
            LegacyOutcome::Running { cells, next_index } => prepend(
                cells,
                legacy_section(secs[k - 1], next_index, fams),
            ),
            LegacyOutcome::Malformed => LegacyOutcome::Malformed,
        }
    }
}

/// Decodes stored values into node indices; `None` where a value overflows.
fn legacy_decode_slice(conn: &Vec<i32>, start: usize, end: usize) -> (r: Option<Vec<usize>>)
    requires
        start <= end <= conn.len(),
    ensures
        r.is_some() == legacy_nodes_ok(conn@.subrange(start as int, end as int)),
        r matches Some(v) ==> v@ == legacy_nodes(conn@.subrange(start as int, end as int)),
{
    let ghost s = conn@.subrange(start as int, end as int);
    let mut out: Vec<usize> = Vec::new();
    let mut i = start;
    while i < end
        invariant
            start <= i <= end <= conn.len(),
            s == conn@.subrange(start as int, end as int),
            out@ == legacy_nodes(s.take(i - start)),
            legacy_nodes_ok(s.take(i - start)),
        decreases end - i,
    {
        let v = conn[i];
        if v == i32::MIN {
            assert(s[i - start] == v);
            return None;
        }
        out.push((v - 1) as usize);
        assert(s.take(i + 1 - start) =~= s.take(i - start).push(v));
        assert(out@ =~= legacy_nodes(s.take(i + 1 - start)));
        i = i + 1;
    }
    assert(s.take(end - start) =~= s);
    Some(out)
}

fn family_of(fams: &HashMap<i32, usize>, g: i32) -> (r: Option<usize>)
    ensures
        r == family_at(fams@, g as int),
{
    broadcast use axiom_i32_obeys_hash_table_key_model, axiom_random_state_builds_valid_hashers,
        axiom_maps_deref_key_to_value, axiom_contains_deref_key;

    match fams.get(&g) {
        Some(f) => Some(*f),
        None => None,
    }
}


proof fn lemma_prepend_push(cells: Seq<CellView>, c: CellView, o: LegacyOutcome)
    ensures
        prepend(cells, prepend(seq![c], o)) == prepend(cells.push(c), o),
{
    match o {
        LegacyOutcome::Running { cells: rest, next_index } => {
            assert(cells + (seq![c] + rest) =~= cells.push(c) + rest);
        },
        LegacyOutcome::Malformed => {},
    }
}

proof fn lemma_prepend_empty(cells: Seq<CellView>, g: int)
    ensures
        prepend(cells, LegacyOutcome::Running { cells: Seq::empty(), next_index: g })
            == (LegacyOutcome::Running { cells: cells, next_index: g }),
{
    assert(cells + Seq::<CellView>::empty() =~= cells);
}

/// What a walk leaves: the cells after the walk and the next index, or nothing
/// where the walk meets malformed input.
pub open spec fn walk_result(
    cells: Seq<CellView>,
    o: LegacyOutcome,
    final_cells: Seq<CellView>,
    r: Option<i32>,
) -> bool {
    match prepend(cells, o) {
        LegacyOutcome::Running { cells: c, next_index } => r == Some(next_index as i32)
            && next_index == next_index as i32 && final_cells == c,
        LegacyOutcome::Malformed => r is None,
    }
}

/// Appends the elements of a fixed-stride section.
fn push_stride_cells(
    kind: ElementKind,
    conn: &Vec<i32>,
    stride: usize,
    g0: i32,
    fams: &HashMap<i32, usize>,
    cells: &mut Vec<MeshCell>,
) -> (r: Option<i32>)
    requires
        stride >= 1,
    ensures
        walk_result(
            cells_view(old(cells)@),
            stride_walk(kind, conn@, stride as int, 0, g0 as int, fams@),
            cells_view(final(cells)@),
            r,
        ),
{
    let ghost init = cells_view(cells@);
    let mut start: usize = 0;
    let mut g = g0;
    while start < conn.len()
        invariant
            stride >= 1,
            start <= conn.len(),
            prepend(init, stride_walk(kind, conn@, stride as int, 0, g0 as int, fams@)) == prepend(
                cells_view(cells@),
                stride_walk(kind, conn@, stride as int, start as int, g as int, fams@),
            ),
        decreases conn.len() - start,
    {
        let end = if conn.len() - start < stride {
            conn.len()
        } else {
            start + stride
        };
        let nodes = match legacy_decode_slice(conn, start, end) {
            None => return None,
            Some(v) => v,
        };
        if g == i32::MAX {
            return None;
        }
        let family = family_of(fams, g);
        let ghost old_cells = cells@;
        let cell = MeshCell { kind, nodes, family };
        cells.push(cell);
        proof {
            lemma_cells_view_push(old_cells, cell);
            lemma_prepend_push(
                cells_view(old_cells),
                cell@,
                stride_walk(kind, conn@, stride as int, end as int, g + 1, fams@),
            );
        }
        start = end;
        g = g + 1;
    }
    proof {
        lemma_prepend_empty(cells_view(cells@), g as int);
    }
    Some(g)
}

/// Appends the elements of a length-prefixed section.
fn push_poly_cells(
    kind: ElementKind,
    conn: &Vec<i32>,
    g0: i32,
    fams: &HashMap<i32, usize>,
    cells: &mut Vec<MeshCell>,
) -> (r: Option<i32>)
    ensures
        walk_result(
            cells_view(old(cells)@),
            poly_walk(kind, conn@, 0, g0 as int, fams@),
            cells_view(final(cells)@),
            r,
        ),
{
    let ghost init = cells_view(cells@);
    let mut i: usize = 0;
    let mut g = g0;
    while i < conn.len()
        invariant
            i <= conn.len(),
            prepend(init, poly_walk(kind, conn@, 0, g0 as int, fams@)) == prepend(
                cells_view(cells@),
                poly_walk(kind, conn@, i as int, g as int, fams@),
            ),
        ensures
            prepend(init, poly_walk(kind, conn@, 0, g0 as int, fams@)) == (LegacyOutcome::Running {
                cells: cells_view(cells@),
                next_index: g as int,
            }),
        decreases conn.len() - i,
    {
        let n = conn[i] as usize;
        let i1 = i + 1;
        if n > usize::MAX - i1 {
            return None;
        }
        if i1 + n > conn.len() {
            proof {
                lemma_prepend_empty(cells_view(cells@), g as int);
            }
            break;
        }
        let nodes = match legacy_decode_slice(conn, i1, i1 + n) {
            None => return None,
            Some(v) => v,
        };
        if g == i32::MAX {
            return None;
        }
        let family = family_of(fams, g);
        let ghost old_cells = cells@;
        let cell = MeshCell { kind, nodes, family };
        cells.push(cell);
        proof {
            lemma_cells_view_push(old_cells, cell);
            lemma_prepend_push(
                cells_view(old_cells),
                cell@,
                poly_walk(kind, conn@, (i1 + n) as int, g + 1, fams@),
            );
        }
        i = i1 + n;
        g = g + 1;
        proof {
            if i >= conn.len() {
                lemma_prepend_empty(cells_view(cells@), g as int);
            }
        }
    }
    Some(g)
}


/// Moves the running index past a skipped section's element range.
fn skip_section(range: &Vec<i32>, g: i32) -> (r: Option<i32>)
    ensures
        match skip_walk(range@, g as int) {
            LegacyOutcome::Running { next_index, .. } => r == Some(next_index as i32)
                && next_index == next_index as i32,
            LegacyOutcome::Malformed => r is None,
        },
{
    if range.len() < 2 {
        return None;
    }
    let d: i64 = range[1] as i64 - range[0] as i64;
    if d < i32::MIN as i64 || d > i32::MAX as i64 || d + 1 > i32::MAX as i64 {
        return None;
    }
    let next: i64 = g as i64 + d + 1;
    if next < i32::MIN as i64 || next > i32::MAX as i64 {
        return None;
    }
    Some(next as i32)
}

/// Reading with malformed input reported as `None`.
fn legacy_core(sections: &[LegacySection], fams: &HashMap<i32, usize>) -> (r: Option<Vec<MeshCell>>)
    ensures
        match legacy_read(sections@, fams@, sections.len() as int) {
            LegacyOutcome::Running { cells, .. } => r matches Some(v) && cells_view(v@) == cells,
            LegacyOutcome::Malformed => r is None,
        },
{
    let mut cells: Vec<MeshCell> = Vec::new();
    let mut g: i32 = 1;
    let mut k: usize = 0;
    assert(cells_view(cells@) =~= Seq::<CellView>::empty());
    while k < sections.len()
        invariant
            k <= sections.len(),
            legacy_read(sections@, fams@, k as int) == (LegacyOutcome::Running {
                cells: cells_view(cells@),
                next_index: g as int,
            }),
        decreases sections.len() - k,
    {
        let s = &sections[k];
        let next = match cgns_code_to_element_type(s.type_code) {
            None => {
                let r = skip_section(&s.index_range, g);
                proof {
                    if r.is_some() {
                        lemma_prepend_empty(cells_view(cells@), r.unwrap() as int);
                    }
                }
                r
            },
            Some(kind) => match nodes_per_cgns_code(s.type_code) {
                Some(stride) => {
                    assert(stride >= 1);
                    push_stride_cells(kind, &s.connectivity, stride, g, fams, &mut cells)
                },
                None => push_poly_cells(kind, &s.connectivity, g, fams, &mut cells),
            },
        };
        match next {
            None => {
                proof {
                    lemma_legacy_malformed_stays(sections@, fams@, k as int + 1, sections.len() as int);
                }
                return None;
            },
            Some(n) => {
                g = n;
            },
        }
        k = k + 1;
    }
    Some(cells)
}

proof fn lemma_legacy_malformed_stays(secs: Seq<LegacySection>, fams: Map<i32, usize>, j: int, k: int)
    requires
        0 <= j <= k,
        legacy_read(secs, fams, j) is Malformed,
    ensures
        legacy_read(secs, fams, k) is Malformed,
    decreases k - j,
{
    if j < k {
        lemma_legacy_malformed_stays(secs, fams, j, k - 1);
    }
}

/// Reads the elements of a zone's sections, taken in reading order (see
/// `section_order`): each element gets the next 1-based index and the family
/// that the boundary conditions give that index; a skipped section moves the
/// index past its element range; a length-prefixed section stops at an
/// element whose length runs past the end.
pub fn decode_legacy_sections(sections: &[LegacySection], families: &HashMap<i32, usize>) -> (r: Vec<
    MeshCell,
>)
    requires
        !(legacy_read(sections@, families@, sections.len() as int) is Malformed),
    ensures
        legacy_read(sections@, families@, sections.len() as int) matches LegacyOutcome::Running {
            cells,
            ..
        } && cells_view(r@) == cells,
{
    match legacy_core(sections, families) {
        Some(v) => v,
        None => Vec::new(),
    }
}

/// Whether `decode_legacy_sections` reads the sections without fault.
pub fn legacy_sections_decodable(sections: &[LegacySection], families: &HashMap<i32, usize>) -> (b:
    bool)
    ensures
        b == !(legacy_read(sections@, families@, sections.len() as int) is Malformed),
{
    legacy_core(sections, families).is_some()
}

/// Elements counted from a walk's output: it numbers its elements from `g`
/// on, one index each, and gives each the family of its index.
pub open spec fn numbered_from(o: LegacyOutcome, g: int, fams: Map<i32, usize>) -> bool {
    o matches LegacyOutcome::Running { cells, next_index } ==> {
        &&& next_index == g + cells.len()
        &&& forall|t: int| 0 <= t < cells.len() ==> (#[trigger] cells[t]).2 == family_at(fams, g + t)
    }
}

proof fn lemma_prepend_numbered(c: CellView, o: LegacyOutcome, g: int, fams: Map<i32, usize>)
    requires
        c.2 == family_at(fams, g),
        numbered_from(o, g + 1, fams),
    ensures
        numbered_from(prepend(seq![c], o), g, fams),
{
    match o {
        LegacyOutcome::Running { cells, next_index } => {
            let all = seq![c] + cells;
            assert forall|t: int| 0 <= t < all.len() implies (#[trigger] all[t]).2 == family_at(
                fams,
                g + t,
            ) by {
                if t > 0 {
                    assert(all[t] == cells[t - 1]);
                }
            }
        },
        LegacyOutcome::Malformed => {},
    }
}

proof fn lemma_stride_numbered(
    kind: ElementKind,
    conn: Seq<i32>,
    stride: int,
    start: int,
    g: int,
    fams: Map<i32, usize>,
)
    ensures
        numbered_from(stride_walk(kind, conn, stride, start, g, fams), g, fams),
    decreases conn.len() - start,
{
    if !(stride <= 0 || start < 0 || start >= conn.len()) {
        let end = if conn.len() - start < stride {
            conn.len() as int
        } else {
            start + stride
        };
        let chunk = conn.subrange(start, end);
        if !(!legacy_nodes_ok(chunk) || g + 1 > i32::MAX) {
            lemma_stride_numbered(kind, conn, stride, end, g + 1, fams);
            lemma_prepend_numbered(
                (kind, legacy_nodes(chunk), family_at(fams, g)),
                stride_walk(kind, conn, stride, end, g + 1, fams),
                g,
                fams,
            );
        }
    }
}

proof fn lemma_poly_numbered(kind: ElementKind, conn: Seq<i32>, i: int, g: int, fams: Map<i32, usize>)
    ensures
        numbered_from(poly_walk(kind, conn, i, g, fams), g, fams),
    decreases conn.len() - i,
{
    if !(i < 0 || i >= conn.len()) {
        let n = (conn[i] as usize) as int;
        let i1 = i + 1;
        if !(i1 + n > usize::MAX) && !(i1 + n > conn.len()) {
            let chunk = conn.subrange(i1, i1 + n);
            if !(!legacy_nodes_ok(chunk) || g + 1 > i32::MAX) {
                lemma_poly_numbered(kind, conn, i1 + n, g + 1, fams);
                lemma_prepend_numbered(
                    (kind, legacy_nodes(chunk), family_at(fams, g)),
                    poly_walk(kind, conn, i1 + n, g + 1, fams),
                    g,
                    fams,
                );
            }
        }
    }
}

/// Number of elements that a section this reader skips covers (its element
/// range), and 0 for a section it reads.
pub open spec fn skipped_count(s: LegacySection) -> int {
    if spec_cgns_kind(s.type_code) is None {
        s.index_range@[1] - s.index_range@[0] + 1
    } else {
        0
    }
}

/// Elements covered by the skipped sections among the first `k`.
pub open spec fn skipped_before(secs: Seq<LegacySection>, k: int) -> int
    decreases k,
{
    if k <= 0 {
        0
    } else {
        skipped_before(secs, k - 1) + skipped_count(secs[k - 1])
    }
}

/// Reading one section from running index `g`: a section read numbers its
/// elements `g, g + 1, ...`, gives each the family of its index, and moves
/// the index past them; a skipped section gives no element and moves the
/// index past its element range.
pub proof fn law_legacy_section_numbering(s: LegacySection, g: int, fams: Map<i32, usize>)
    ensures
        legacy_section(s, g, fams) matches LegacyOutcome::Running { cells, next_index } ==> {
            &&& next_index == g + cells.len() + skipped_count(s)
            &&& forall|t: int|
                0 <= t < cells.len() ==> (#[trigger] cells[t]).2 == family_at(fams, g + t)
            &&& spec_cgns_kind(s.type_code) is None ==> cells.len() == 0
        },
{
    match spec_cgns_kind(s.type_code) {
        None => {},
        Some(kind) => match spec_cgns_stride(s.type_code) {
            Some(k) => lemma_stride_numbered(kind, s.connectivity@, k as int, 0, g, fams),
            None => lemma_poly_numbered(kind, s.connectivity@, 0, g, fams),
        },
    }
}

/// The reading numbers elements across sections: after the first `k`
/// sections the running index is 1 plus the elements read plus the elements
/// of the skipped sections, and the elements read by the first `j <= k`
/// sections come first, unchanged.
proof fn lemma_legacy_read_running(secs: Seq<LegacySection>, fams: Map<i32, usize>, j: int, k: int)
    requires
        0 <= j <= k <= secs.len(),
        legacy_read(secs, fams, k) is Running,
    ensures
        legacy_read(secs, fams, j) is Running,
        legacy_read(secs, fams, j)->Running_next_index == 1 + legacy_read(secs, fams, j)->Running_cells.len()
            + skipped_before(secs, j),
        legacy_read(secs, fams, k)->Running_cells.take(legacy_read(secs, fams, j)->Running_cells.len() as int)
            == legacy_read(secs, fams, j)->Running_cells,
        legacy_read(secs, fams, j)->Running_cells.len() <= legacy_read(secs, fams, k)->Running_cells.len(),
    decreases k,
{
    if k > 0 {
        assert(legacy_read(secs, fams, k - 1) is Running);
        let c0 = legacy_read(secs, fams, k - 1)->Running_cells;
        let g0 = legacy_read(secs, fams, k - 1)->Running_next_index;
        law_legacy_section_numbering(secs[k - 1], g0, fams);
        let c1 = legacy_read(secs, fams, k)->Running_cells;
        assert(c1.take(c0.len() as int) =~= c0);
        if j < k {
            lemma_legacy_read_running(secs, fams, j, k - 1);
            let cj = legacy_read(secs, fams, j)->Running_cells;
            assert(c1.take(cj.len() as int) =~= c0.take(cj.len() as int));
        } else {
            lemma_legacy_read_running(secs, fams, k - 1, k - 1);
            assert(c1.take(c1.len() as int) =~= c1);
        }
    } else {
        assert(legacy_read(secs, fams, 0)->Running_cells.take(0) =~= Seq::<CellView>::empty());
    }
}

/// Every element read gets the running index that counts all elements before
/// it in reading order, skipped ranges included: the elements of section `j`
/// are numbered from 1 plus the elements read before it plus the elements of
/// the skipped sections before it, and each has the family of its number.
pub proof fn law_legacy_running_index(secs: Seq<LegacySection>, fams: Map<i32, usize>, j: int)
    requires
        0 <= j < secs.len(),
        legacy_read(secs, fams, secs.len() as int) is Running,
    ensures
        ({
            let all = legacy_read(secs, fams, secs.len() as int)->Running_cells;
            let before = legacy_read(secs, fams, j)->Running_cells.len();
            let through = legacy_read(secs, fams, j + 1)->Running_cells.len();
            &&& before <= through <= all.len()
            &&& forall|t: int|
                before <= t < through ==> (#[trigger] all[t]).2 == family_at(
                    fams,
                    1 + t + skipped_before(secs, j),
                )
        }),
        legacy_read(secs, fams, secs.len() as int)->Running_next_index == 1 + legacy_read(
            secs,
            fams,
            secs.len() as int,
        )->Running_cells.len() + skipped_before(secs, secs.len() as int),
{
    let n = secs.len() as int;
    lemma_legacy_read_running(secs, fams, j, n);
    lemma_legacy_read_running(secs, fams, j + 1, n);
    lemma_legacy_read_running(secs, fams, n, n);
    let all = legacy_read(secs, fams, n)->Running_cells;
    let c0 = legacy_read(secs, fams, j)->Running_cells;
    let g0 = legacy_read(secs, fams, j)->Running_next_index;
    let c1 = legacy_read(secs, fams, j + 1)->Running_cells;
    law_legacy_section_numbering(secs[j], g0, fams);
    let part = legacy_section(secs[j], g0, fams)->Running_cells;
    assert(c1 == c0 + part);
    assert forall|t: int| c0.len() <= t < c1.len() implies (#[trigger] all[t]).2 == family_at(
        fams,
        1 + t + skipped_before(secs, j),
    ) by {
        assert(all.take(c1.len() as int)[t] == all[t]);
        assert(c1[t] == part[t - c0.len()]);
    }
}

} // verus!
