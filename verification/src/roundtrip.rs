//! What the reader makes of the sections that the writer plans: a mesh
//! written and read back has the same cells.
use crate::cells::CellView;
use crate::element_read::{
    decode_first_pass, decode_nodes, decoded_result, face_parts, is_phed_section, law_phed_section_position, decode_sections, decode_step, face_part, face_position,
    face_ref_magnitude, face_ref_ok, item, item_ok, node_index, nodes_decodable, pgon_cells,
    pgon_ok, phed_cell_ok, phed_cells, phed_count, phed_nodes, phed_ok, range_count,
    regular_cells, regular_ok, slice_end, slice_start, DecodeOutcome, SectionView,
};
use crate::element_write::{
    block_start, cell_refs, cell_refs_ok, cells_of, count_before, encode_cell, encode_node,
    encoded_parts, face_ref, last_match, offsets_of_parts, pgon_block, plan_block, plan_sections,
    plannable, CellBlock, SectionPlanView,
};
use crate::faces::{join_faces, separated, lemma_split_faces_len, orientation, same_nodes, separator, split_faces};
use crate::kinds::{spec_cgns_code, spec_cgns_kind, spec_cgns_stride, ElementKind};
use vstd::prelude::*;

verus! {

/// A written node index reads back as the same node.
pub proof fn lemma_node_roundtrip(x: usize)
    requires
        x != usize::MAX,
        (x as i64) != i64::MAX,
    ensures
        (encode_node(x) as usize) != 0,
        node_index(encode_node(x)) == x,
{
    let v: i64 = encode_node(x);
    assert(v == ((x as i64) + 1) as i64);
    let y: usize = (x + 1) as usize;
    assert(y != 0);
    assert(((((x as i64) + 1) as i64) as usize) != 0 && ((((x as i64) + 1) as i64) as usize) - 1
        == x) by (bit_vector)
        requires
            y == (x + 1) as usize,
            y != 0,
            (x as i64) != 0x7fff_ffff_ffff_ffffi64,
    ;
}

/// A written node list reads back as the same list.
pub proof fn lemma_cell_roundtrip(c: Seq<usize>)
    requires
        forall|t: int| 0 <= t < c.len() ==> #[trigger] c[t] != usize::MAX && (c[t] as i64)
            != i64::MAX,
    ensures
        nodes_decodable(encode_cell(c)),
        decode_nodes(encode_cell(c)) == c,
{
    assert forall|t: int| 0 <= t < encode_cell(c).len() implies (#[trigger] encode_cell(c)[t] as usize)
        != 0 by {
        lemma_node_roundtrip(c[t]);
    }
    assert forall|t: int| 0 <= t < c.len() implies #[trigger] decode_nodes(encode_cell(c))[t]
        == c[t] by {
        lemma_node_roundtrip(c[t]);
    }
    assert(decode_nodes(encode_cell(c)) =~= c);
}

/// A length stored as a 64-bit offset reads back as the same length.
pub proof fn lemma_length_cast(n: int)
    requires
        0 <= n <= usize::MAX,
    ensures
        ((n as i64) as usize) as int == n,
{
    let u = n as usize;
    assert((u as i64) as usize == u) by (bit_vector);
}

/// The parts before part `i` and part `i` itself, within a flattened sequence.
pub proof fn lemma_flatten_part<A>(parts: Seq<Seq<A>>, i: int)
    requires
        0 <= i < parts.len(),
    ensures
        parts.take(i + 1).flatten() == parts.take(i).flatten() + parts[i],
        parts.take(i + 1).flatten().len() <= parts.flatten().len(),
        parts.flatten().subrange(
            parts.take(i).flatten().len() as int,
            parts.take(i + 1).flatten().len() as int,
        ) == parts[i],
{
    assert(parts.take(i + 1) =~= parts.take(i).push(parts[i]));
    parts.take(i).lemma_flatten_push(parts[i]);
    assert(parts =~= parts.take(i + 1) + parts.skip(i + 1));
    vstd::seq_lib::lemma_flatten_concat(parts.take(i + 1), parts.skip(i + 1));
    let a = parts.take(i).flatten();
    let b = parts.take(i + 1).flatten();
    assert(parts.flatten() == b + parts.skip(i + 1).flatten());
    assert(parts.flatten().subrange(a.len() as int, b.len() as int) =~= parts[i]);
}


/// Flattening sequences whose parts are pointwise no longer gives a sequence no longer.
pub proof fn lemma_flatten_len_le<A, B>(p: Seq<Seq<A>>, q: Seq<Seq<B>>)
    requires
        p.len() == q.len(),
        forall|i: int| 0 <= i < p.len() ==> (#[trigger] p[i]).len() <= q[i].len(),
    ensures
        p.flatten().len() <= q.flatten().len(),
    decreases p.len(),
{
    if p.len() > 0 {
        let n = p.len() - 1;
        lemma_flatten_len_le(p.drop_last(), q.drop_last());
        assert(p =~= p.drop_last().push(p[n]));
        assert(q =~= q.drop_last().push(q[n]));
        p.drop_last().lemma_flatten_push(p[n]);
        q.drop_last().lemma_flatten_push(q[n]);
    }
}

/// Flattening sequences whose parts have pointwise equal lengths gives equal lengths.
pub proof fn lemma_flatten_len_eq<A, B>(p: Seq<Seq<A>>, q: Seq<Seq<B>>)
    requires
        p.len() == q.len(),
        forall|i: int| 0 <= i < p.len() ==> (#[trigger] p[i]).len() == q[i].len(),
    ensures
        p.flatten().len() == q.flatten().len(),
{
    lemma_flatten_len_le(p, q);
    lemma_flatten_len_le(q, p);
}

/// Flattening parts of length `k` each: the first `i` parts hold `i * k` values.
pub proof fn lemma_flatten_uniform<A>(parts: Seq<Seq<A>>, k: int, i: int)
    requires
        0 <= i <= parts.len(),
        forall|t: int| 0 <= t < parts.len() ==> (#[trigger] parts[t]).len() == k,
    ensures
        parts.take(i).flatten().len() == i * k,
    decreases i,
{
    if i > 0 {
        lemma_flatten_uniform(parts, k, i - 1);
        lemma_flatten_part(parts, i - 1);
        assert(i * k == (i - 1) * k + k) by (nonlinear_arith);
    }
}

/// Values of a flattened sequence come from its parts.
pub proof fn lemma_flatten_decodable(parts: Seq<Seq<i64>>)
    requires
        forall|i: int| 0 <= i < parts.len() ==> nodes_decodable(#[trigger] parts[i]),
    ensures
        nodes_decodable(parts.flatten()),
    decreases parts.len(),
{
    if parts.len() > 0 {
        let n = parts.len() - 1;
        lemma_flatten_decodable(parts.drop_last());
        assert(parts =~= parts.drop_last().push(parts[n]));
        parts.drop_last().lemma_flatten_push(parts[n]);
        let a = parts.drop_last().flatten();
        assert forall|t: int| 0 <= t < parts.flatten().len() implies (
        #[trigger] parts.flatten()[t] as usize) != 0 by {
            if t < a.len() {
                assert(parts.flatten()[t] == a[t]);
            } else {
                assert(parts.flatten()[t] == parts[n][t - a.len()]);
            }
        }
    }
}

/// The written parts of cells have the lengths of the cells.
pub proof fn lemma_encoded_lengths(cells: Seq<Seq<usize>>)
    ensures
        encoded_parts(cells).len() == cells.len(),
        forall|i: int| 0 <= i < cells.len() ==> (#[trigger] encoded_parts(cells)[i]).len() == cells[i].len(),
        encoded_parts(cells).flatten().len() == cells.flatten().len(),
{
    lemma_flatten_len_eq(encoded_parts(cells), cells);
}

/// Item `i` of written parts with their start offsets is part `i`.
pub proof fn lemma_offsets_item(parts: Seq<Seq<i64>>, i: int)
    requires
        0 <= i < parts.len(),
        parts.flatten().len() <= usize::MAX,
    ensures
        i + 1 < offsets_of_parts(parts).len(),
        slice_start(offsets_of_parts(parts), i) <= slice_end(offsets_of_parts(parts), i)
            <= parts.flatten().len(),
        item_ok(parts.flatten(), offsets_of_parts(parts), i) <==> nodes_decodable(parts[i]),
        item(parts.flatten(), offsets_of_parts(parts), i) == parts[i],
{
    let off = offsets_of_parts(parts);
    lemma_flatten_part(parts, i);
    let a = parts.take(i).flatten().len();
    let b = parts.take(i + 1).flatten().len();
    assert(a <= b);
    lemma_length_cast(a as int);
    lemma_length_cast(b as int);
    assert(off[i] == a as i64);
    assert(off[i + 1] == b as i64);
    assert(slice_start(off, i) == a);
    assert(slice_end(off, i) == b);
}


/// A node that the writer and reader carry over unchanged.
pub open spec fn node_carried(x: usize) -> bool {
    x != usize::MAX && (x as i64) != i64::MAX
}

/// Every node of every cell is carried over.
pub open spec fn nodes_carried(cells: Seq<Seq<usize>>) -> bool {
    forall|c: int, t: int|
        0 <= c < cells.len() && 0 <= t < cells[c].len() ==> #[trigger] node_carried(cells[c][t])
}

/// The cells of a block as the reader gives them.
pub open spec fn block_cells(kind: ElementKind, cells: Seq<Seq<usize>>) -> Seq<CellView> {
    cells.map_values(|c: Seq<usize>| (kind, c, None::<usize>))
}

proof fn lemma_encoded_decodable(cells: Seq<Seq<usize>>, i: int)
    requires
        0 <= i < cells.len(),
        nodes_carried(cells),
    ensures
        nodes_decodable(encoded_parts(cells)[i]),
        decode_nodes(encoded_parts(cells)[i]) == cells[i],
{
    assert forall|t: int| 0 <= t < cells[i].len() implies #[trigger] cells[i][t] != usize::MAX
        && (cells[i][t] as i64) != i64::MAX by {
        assert(node_carried(cells[i][t]));
    }
    lemma_cell_roundtrip(cells[i]);
}

/// A fixed-stride block written and read back gives its cells.
pub proof fn lemma_regular_roundtrip(kind: ElementKind, cells: Seq<Seq<usize>>, k: usize)
    requires
        k >= 1,
        cells.len() <= usize::MAX,
        forall|c: int| 0 <= c < cells.len() ==> (#[trigger] cells[c]).len() == k,
        nodes_carried(cells),
    ensures
        regular_ok(encoded_parts(cells).flatten(), cells.len() as usize, k),
        regular_cells(kind, encoded_parts(cells).flatten(), cells.len() as usize, k) == block_cells(
            kind,
            cells,
        ),
{
    let parts = encoded_parts(cells);
    let conn = parts.flatten();
    let n = cells.len() as usize;
    lemma_encoded_lengths(cells);
    lemma_flatten_uniform(parts, k as int, n as int);
    assert(parts.take(n as int) =~= parts);
    assert(conn.len() == n * k);
    assert forall|i: int| 0 <= i < parts.len() implies nodes_decodable(#[trigger] parts[i]) by {
        lemma_encoded_decodable(cells, i);
    }
    lemma_flatten_decodable(parts);
    assert(conn.take(n * k) =~= conn);
    assert forall|i: int| 0 <= i < n implies #[trigger] regular_cells(kind, conn, n, k)[i]
        == block_cells(kind, cells)[i] by {
        lemma_flatten_uniform(parts, k as int, i);
        lemma_flatten_uniform(parts, k as int, i + 1);
        lemma_flatten_part(parts, i);
        assert((i + 1) * k == i * k + k) by (nonlinear_arith);
        lemma_encoded_decodable(cells, i);
    }
    assert(regular_cells(kind, conn, n, k) =~= block_cells(kind, cells));
}

/// A polygon block written and read back gives its cells, and each face is
/// found again at its position.
pub proof fn lemma_pgon_roundtrip(cells: Seq<Seq<usize>>)
    requires
        cells.len() <= usize::MAX,
        cells.flatten().len() <= usize::MAX,
        nodes_carried(cells),
    ensures
        pgon_ok(
            encoded_parts(cells).flatten(),
            offsets_of_parts(encoded_parts(cells)),
            cells.len() as usize,
        ),
        pgon_cells(
            encoded_parts(cells).flatten(),
            offsets_of_parts(encoded_parts(cells)),
            cells.len() as usize,
        ) == block_cells(ElementKind::PGON, cells),
        forall|j: int|
            0 <= j < cells.len() ==> #[trigger] item_ok(
                encoded_parts(cells).flatten(),
                offsets_of_parts(encoded_parts(cells)),
                j,
            ) && decode_nodes(
                item(encoded_parts(cells).flatten(), offsets_of_parts(encoded_parts(cells)), j),
            ) == cells[j],
{
    let parts = encoded_parts(cells);
    let conn = parts.flatten();
    let off = offsets_of_parts(parts);
    let n = cells.len() as usize;
    lemma_encoded_lengths(cells);
    assert forall|j: int| 0 <= j < cells.len() implies #[trigger] item_ok(conn, off, j)
        && decode_nodes(item(conn, off, j)) == cells[j] by {
        lemma_encoded_decodable(cells, j);
        lemma_offsets_item(parts, j);
    }
    assert forall|j: int| 0 <= j < n implies #[trigger] pgon_cells(conn, off, n)[j] == block_cells(
        ElementKind::PGON,
        cells,
    )[j] by {
        assert(item_ok(conn, off, j));
    }
    assert(pgon_cells(conn, off, n) =~= block_cells(ElementKind::PGON, cells));
}


/// A polyhedron face that is a polygon of the mesh, or such a polygon of at
/// least three distinct nodes run backwards.
pub open spec fn face_matches(p: Seq<usize>, f: Seq<usize>) -> bool {
    f == p || (f == p.reverse() && p.len() >= 3 && p.no_duplicates())
}

/// Some polygon of the mesh matches the face.
pub open spec fn face_carried(pgons: Seq<Seq<usize>>, f: Seq<usize>) -> bool {
    exists|j: int| 0 <= j < pgons.len() && #[trigger] face_matches(pgons[j], f)
}

/// No two polygons of the mesh hold the same nodes.
pub open spec fn distinct_node_sets(pgons: Seq<Seq<usize>>) -> bool {
    forall|i: int, j: int|
        0 <= i < pgons.len() && 0 <= j < pgons.len() && i != j ==> #[trigger] pgons[i].to_multiset()
            != #[trigger] pgons[j].to_multiset()
}

/// The only polygon holding a face's nodes is the one found.
proof fn lemma_last_match_unique(pgons: Seq<Seq<usize>>, f: Seq<usize>, j: int, k: int)
    requires
        distinct_node_sets(pgons),
        0 <= j < k <= pgons.len(),
        same_nodes(pgons[j], f),
    ensures
        last_match(pgons, f, k) == Some(j),
    decreases k,
{
    if k - 1 != j {
        if same_nodes(pgons[k - 1], f) {
            assert(pgons[k - 1].to_multiset() == pgons[j].to_multiset());
        }
        lemma_last_match_unique(pgons, f, j, k - 1);
    }
}

/// The orientation that the writer computes tells a face from its reverse.
proof fn lemma_orientation_of_match(p: Seq<usize>, f: Seq<usize>)
    requires
        face_matches(p, f),
    ensures
        same_nodes(p, f),
        (orientation(p, f) == 1 && f == p) || (orientation(p, f) == -1 && f == p.reverse()),
{
    let n = p.len();
    if f == p {
        if n >= 3 {
            f.index_of_first_ensures(p[0]);
            assert(f.contains(p[0])) by {
                assert(f[0] == p[0]);
            }
            let q = f.index_of_first(p[0]).unwrap();
            if q > 0 {
                assert(f[0] == p[0]);
            }
            assert(q == 0);
            assert(1int % (n as int) == 1) by (nonlinear_arith)
                requires
                    n >= 3,
            ;
        }
    } else {
        p.lemma_reverse_to_multiset();
        assert(f.len() == n);
        assert(f.contains(p[0])) by {
            assert(f[n - 1] == p[0]);
        }
        f.index_of_first_ensures(p[0]);
        let q = f.index_of_first(p[0]).unwrap();
        assert(f[q] == p[n - 1 - q]);
        assert(n - 1 - q == 0);
        assert((n as int) % (n as int) == 0) by (nonlinear_arith)
            requires
                n >= 3,
        ;
        assert((q + 1) % (n as int) == 0);
        assert(f[0] == p[n - 1]);
        assert(p[n - 1] != p[1]);
    }
}

/// The arrays of the written polygon section.
pub open spec fn pgon_conn(pgons: Seq<Seq<usize>>) -> Seq<i64> {
    encoded_parts(pgons).flatten()
}

pub open spec fn pgon_offsets(pgons: Seq<Seq<usize>>) -> Seq<i64> {
    offsets_of_parts(encoded_parts(pgons))
}

/// The conditions under which the faces of polyhedra are carried over.
pub open spec fn faces_resolvable(blocks: Seq<CellBlock>, p: int) -> bool {
    &&& pgon_block(blocks) == Some(p)
    &&& count_before(blocks, p) == 0
    &&& cells_of(blocks[p]).len() < i64::MAX
    &&& cells_of(blocks[p]).len() <= usize::MAX
    &&& cells_of(blocks[p]).flatten().len() <= usize::MAX
    &&& nodes_carried(cells_of(blocks[p]))
    &&& distinct_node_sets(cells_of(blocks[p]))
}

/// A face matching a polygon gets a reference that the reader resolves back to the face.
proof fn lemma_face_roundtrip(blocks: Seq<CellBlock>, p: int, f: Seq<usize>)
    requires
        faces_resolvable(blocks, p),
        face_carried(cells_of(blocks[p]), f),
    ensures
        face_ref(blocks, f) is Some,
        face_ref_ok(
            face_ref(blocks, f).unwrap(),
            pgon_conn(cells_of(blocks[p])),
            pgon_offsets(cells_of(blocks[p])),
        ),
        face_part(
            face_ref(blocks, f).unwrap(),
            pgon_conn(cells_of(blocks[p])),
            pgon_offsets(cells_of(blocks[p])),
        ) == f.push(separator()),
{
    let pgons = cells_of(blocks[p]);
    let j = choose|j: int| 0 <= j < pgons.len() && #[trigger] face_matches(pgons[j], f);
    lemma_orientation_of_match(pgons[j], f);
    lemma_last_match_unique(pgons, f, j, pgons.len() as int);
    lemma_pgon_roundtrip(pgons);
    assert(block_start(blocks, p) == 1);
    let o = orientation(pgons[j], f);
    let r = face_ref(blocks, f).unwrap();
    assert(r == (o * (1 + j)) as i64);
    if o == 1 {
        assert(r == 1 + j);
    } else {
        assert(r == -(1 + j));
    }
    assert(face_ref_magnitude(r) == 1 + j);
    assert(face_position(r) == j);
    assert(item_ok(pgon_conn(pgons), pgon_offsets(pgons), j));
}


/// A polyhedron cell made of faces, each followed by the separator, and each
/// matching a polygon of the mesh.
pub open spec fn phed_cell_carried(pgons: Seq<Seq<usize>>, cell: Seq<usize>) -> bool {
    &&& cell == join_faces(split_faces(cell))
    &&& forall|t: int|
        0 <= t < split_faces(cell).len() ==> #[trigger] face_carried(pgons, split_faces(cell)[t])
}

/// A polyhedron cell gets references that the reader resolves back to the cell.
proof fn lemma_phed_cell_roundtrip(blocks: Seq<CellBlock>, p: int, cell: Seq<usize>)
    requires
        faces_resolvable(blocks, p),
        phed_cell_carried(cells_of(blocks[p]), cell),
    ensures
        cell_refs_ok(blocks, cell),
        cell_refs(blocks, cell).len() <= cell.len(),
        forall|t: int|
            0 <= t < cell_refs(blocks, cell).len() ==> #[trigger] face_ref_ok(
                cell_refs(blocks, cell)[t],
                pgon_conn(cells_of(blocks[p])),
                pgon_offsets(cells_of(blocks[p])),
            ),
        face_parts(
            cell_refs(blocks, cell),
            pgon_conn(cells_of(blocks[p])),
            pgon_offsets(cells_of(blocks[p])),
        ).flatten() == cell,
{
    let pgons = cells_of(blocks[p]);
    let fc = pgon_conn(pgons);
    let fo = pgon_offsets(pgons);
    let faces = split_faces(cell);
    lemma_split_faces_len(cell);
    assert forall|t: int| 0 <= t < faces.len() implies (#[trigger] face_ref(blocks, faces[t])) is Some
        && face_ref_ok(face_ref(blocks, faces[t]).unwrap(), fc, fo) && face_part(
        face_ref(blocks, faces[t]).unwrap(),
        fc,
        fo,
    ) == faces[t].push(separator()) by {
        assert(face_carried(pgons, faces[t]));
        lemma_face_roundtrip(blocks, p, faces[t]);
    }
    let refs = cell_refs(blocks, cell);
    assert forall|t: int| 0 <= t < refs.len() implies #[trigger] face_ref_ok(refs[t], fc, fo) by {
        assert(refs[t] == face_ref(blocks, faces[t]).unwrap());
    }
    assert(face_parts(refs, fc, fo) =~= separated(faces)) by {
        assert forall|t: int| 0 <= t < refs.len() implies face_parts(refs, fc, fo)[t]
            == #[trigger] separated(faces)[t] by {
            assert(refs[t] == face_ref(blocks, faces[t]).unwrap());
        }
    }
}

/// Every cell of a polyhedron block is carried over.
pub open spec fn phed_cells_carried(pgons: Seq<Seq<usize>>, cells: Seq<Seq<usize>>) -> bool {
    forall|c: int| 0 <= c < cells.len() ==> #[trigger] phed_cell_carried(pgons, cells[c])
}

/// A polyhedron block written and read back gives its cells.
proof fn lemma_phed_roundtrip(blocks: Seq<CellBlock>, p: int, cells: Seq<Seq<usize>>)
    requires
        faces_resolvable(blocks, p),
        phed_cells_carried(cells_of(blocks[p]), cells),
        cells.flatten().len() <= usize::MAX,
    ensures
        forall|c: int| 0 <= c < cells.len() ==> #[trigger] cell_refs_ok(blocks, cells[c]),
        phed_ok(
            cells.map_values(|c: Seq<usize>| cell_refs(blocks, c)).flatten(),
            offsets_of_parts(cells.map_values(|c: Seq<usize>| cell_refs(blocks, c))),
            pgon_conn(cells_of(blocks[p])),
            pgon_offsets(cells_of(blocks[p])),
        ),
        phed_cells(
            cells.map_values(|c: Seq<usize>| cell_refs(blocks, c)).flatten(),
            offsets_of_parts(cells.map_values(|c: Seq<usize>| cell_refs(blocks, c))),
            pgon_conn(cells_of(blocks[p])),
            pgon_offsets(cells_of(blocks[p])),
        ) == block_cells(ElementKind::PHED, cells),
{
    let pgons = cells_of(blocks[p]);
    let fc = pgon_conn(pgons);
    let fo = pgon_offsets(pgons);
    let parts = cells.map_values(|c: Seq<usize>| cell_refs(blocks, c));
    let pc = parts.flatten();
    let po = offsets_of_parts(parts);
    assert forall|c: int| 0 <= c < cells.len() implies #[trigger] cell_refs_ok(blocks, cells[c]) by {
        lemma_phed_cell_roundtrip(blocks, p, cells[c]);
    }
    assert forall|c: int| 0 <= c < parts.len() implies (#[trigger] parts[c]).len() <= cells[c].len() by {
        lemma_phed_cell_roundtrip(blocks, p, cells[c]);
    }
    lemma_flatten_len_le(parts, cells);
    assert forall|i: int| 0 <= i < phed_count(po) implies #[trigger] phed_cell_ok(pc, po, fc, fo, i)
        && phed_nodes(pc, po, fc, fo, i) == cells[i] by {
        lemma_offsets_item(parts, i);
        lemma_phed_cell_roundtrip(blocks, p, cells[i]);
        assert(item(pc, po, i) == parts[i]);
    }
    assert forall|i: int| 0 <= i < cells.len() implies #[trigger] phed_cells(pc, po, fc, fo)[i]
        == block_cells(ElementKind::PHED, cells)[i] by {
        assert(phed_cell_ok(pc, po, fc, fo, i));
    }
    assert(phed_cells(pc, po, fc, fo) =~= block_cells(ElementKind::PHED, cells));
}


/// Blocks in the order in which a mesh lists them: by kind, each kind once.
pub open spec fn mesh_ordered(blocks: Seq<CellBlock>) -> bool {
    forall|i: int, j: int|
        0 <= i < j < blocks.len() ==> (#[trigger] blocks[i].kind).rank() < (
        #[trigger] blocks[j].kind).rank()
}

/// Stride of a kind's CGNS code.
pub open spec fn kind_stride(kind: ElementKind) -> usize {
    spec_cgns_stride(spec_cgns_code(kind).unwrap()).unwrap()
}

/// A fixed-size kind (neither polygon nor polyhedron).
pub open spec fn fixed_size(kind: ElementKind) -> bool {
    kind != ElementKind::PGON && kind != ElementKind::PHED
}

/// What the round trip asks of a mesh beyond what the writer asks: blocks in
/// mesh order; cells of fixed-size kinds with as many nodes as the kind has;
/// node indices other than `usize::MAX`; sizes that fit in memory; and, where
/// the mesh has polyhedra, a polygon block that comes first among the
/// non-empty blocks, whose polygons hold pairwise different node sets, and
/// polyhedron cells made of separator-terminated faces that are polygons of
/// the mesh or, for polygons of three or more distinct nodes, their reverse.
pub open spec fn roundtrip_ready(blocks: Seq<CellBlock>) -> bool {
    &&& plannable(blocks)
    &&& mesh_ordered(blocks)
    &&& forall|k: int|
        0 <= k < blocks.len() ==> cells_of(#[trigger] blocks[k]).len() <= usize::MAX && cells_of(
            blocks[k],
        ).flatten().len() <= usize::MAX
    &&& forall|k: int|
        0 <= k < blocks.len() && fixed_size(#[trigger] blocks[k].kind) ==> forall|c: int|
            0 <= c < cells_of(blocks[k]).len() ==> (#[trigger] cells_of(blocks[k])[c]).len()
                == kind_stride(blocks[k].kind)
    &&& forall|k: int|
        0 <= k < blocks.len() && (#[trigger] blocks[k].kind) != ElementKind::PHED ==> nodes_carried(
            cells_of(blocks[k]),
        )
    &&& forall|k: int|
        0 <= k < blocks.len() && (#[trigger] blocks[k].kind) == ElementKind::PHED ==> {
            &&& pgon_block(blocks) is Some
            &&& faces_resolvable(blocks, pgon_block(blocks).unwrap())
            &&& phed_cells_carried(cells_of(blocks[pgon_block(blocks).unwrap()]), cells_of(blocks[k]))
        }
}

/// The cells of a mesh given by its blocks, block after block.
pub open spec fn mesh_cells(blocks: Seq<CellBlock>) -> Seq<CellView> {
    blocks.map_values(|b: CellBlock| block_cells(b.kind, cells_of(b))).flatten()
}

/// The cells of the blocks other than polyhedron blocks.
pub open spec fn non_phed_cells(blocks: Seq<CellBlock>) -> Seq<CellView> {
    blocks.map_values(
        |b: CellBlock|
            if b.kind == ElementKind::PHED {
                Seq::<CellView>::empty()
            } else {
                block_cells(b.kind, cells_of(b))
            },
    ).flatten()
}

/// The sections that the reader finds where the writer wrote these plans.
pub open spec fn written_sections(plans: Seq<SectionPlanView>) -> Seq<SectionView> {
    plans.map_values(
        |p: SectionPlanView|
            SectionView {
                type_code: p.cgns_code,
                element_range: Some((p.range_start, p.range_end)),
                connectivity: p.connectivity,
                start_offsets: p.start_offsets,
            },
    )
}

/// Position of the block of a kind among the first `k` blocks.
pub open spec fn seen_before(blocks: Seq<CellBlock>, kind: ElementKind, k: int) -> Option<int> {
    match crate::element_write::first_kind(blocks, kind, 0) {
        Some(i) => if i < k {
            Some(i)
        } else {
            None
        },
        None => None,
    }
}

proof fn lemma_first_kind_ordered(blocks: Seq<CellBlock>, kind: ElementKind, from: int, k: int)
    requires
        mesh_ordered(blocks),
        0 <= from <= k < blocks.len(),
        blocks[k].kind == kind,
    ensures
        crate::element_write::first_kind(blocks, kind, from) == Some(k),
    decreases k - from,
{
    if from < k {
        assert(blocks[from].kind.rank() < blocks[k].kind.rank());
        lemma_first_kind_ordered(blocks, kind, from + 1, k);
    }
}

proof fn lemma_first_kind_found(blocks: Seq<CellBlock>, kind: ElementKind, from: int)
    requires
        0 <= from,
    ensures
        crate::element_write::first_kind(blocks, kind, from) matches Some(i) ==> from <= i
            < blocks.len() && blocks[i].kind == kind,
    decreases blocks.len() - from,
{
    if from < blocks.len() && blocks[from].kind != kind {
        lemma_first_kind_found(blocks, kind, from + 1);
    }
}

/// Elements counted before and through a block.
proof fn lemma_count_bounds(blocks: Seq<CellBlock>, j: int, k: int)
    requires
        0 <= j <= k <= blocks.len(),
    ensures
        0 <= count_before(blocks, j) <= count_before(blocks, k),
    decreases k - j,
{
    if j < k {
        lemma_count_bounds(blocks, j, k - 1);
    } else {
        lemma_count_nonneg(blocks, j);
    }
}

proof fn lemma_count_nonneg(blocks: Seq<CellBlock>, j: int)
    ensures
        0 <= count_before(blocks, j),
    decreases j,
{
    if j > 0 {
        lemma_count_nonneg(blocks, j - 1);
    }
}

/// The element range written for a block reads back as the block's size.
proof fn lemma_range_roundtrip(blocks: Seq<CellBlock>, k: int)
    requires
        plannable(blocks),
        0 <= k < blocks.len(),
        cells_of(blocks[k]).len() <= usize::MAX,
    ensures
        plan_block(blocks, k) matches Some(v) ==> range_count((v.range_start, v.range_end)) == Some(
            blocks[k].cells.len() as usize,
        ),
{
    lemma_count_bounds(blocks, 0, k);
    lemma_count_bounds(blocks, k + 1, blocks.len() as int);
    let start = block_start(blocks, k);
    let n = blocks[k].cells.len();
    assert(count_before(blocks, k + 1) == count_before(blocks, k) + n);
    assert(1 <= start <= i64::MAX);
    assert(0 <= start + n - 1 <= i64::MAX);
    lemma_length_cast(n as int);
}


/// The sections planned for all blocks, when none is refused.
pub open spec fn planned(blocks: Seq<CellBlock>) -> Seq<SectionPlanView> {
    Seq::new(blocks.len(), |k: int| plan_block(blocks, k).unwrap())
}

/// What the reader keeps of one block in its first pass.
pub open spec fn first_pass_part(b: CellBlock) -> Seq<CellView> {
    if b.kind == ElementKind::PHED {
        Seq::<CellView>::empty()
    } else {
        block_cells(b.kind, cells_of(b))
    }
}

proof fn lemma_non_phed_push(blocks: Seq<CellBlock>, k: int)
    requires
        0 < k <= blocks.len(),
    ensures
        non_phed_cells(blocks.take(k)) == non_phed_cells(blocks.take(k - 1)) + first_pass_part(
            blocks[k - 1],
        ),
        mesh_cells(blocks.take(k)) == mesh_cells(blocks.take(k - 1)) + block_cells(
            blocks[k - 1].kind,
            cells_of(blocks[k - 1]),
        ),
{
    let b = blocks[k - 1];
    assert(blocks.take(k) =~= blocks.take(k - 1).push(b));
    let f = |b: CellBlock|
        if b.kind == ElementKind::PHED {
            Seq::<CellView>::empty()
        } else {
            block_cells(b.kind, cells_of(b))
        };
    let g = |b: CellBlock| block_cells(b.kind, cells_of(b));
    assert(blocks.take(k).map_values(f) =~= blocks.take(k - 1).map_values(f).push(f(b)));
    assert(blocks.take(k).map_values(g) =~= blocks.take(k - 1).map_values(g).push(g(b)));
    blocks.take(k - 1).map_values(f).lemma_flatten_push(f(b));
    blocks.take(k - 1).map_values(g).lemma_flatten_push(g(b));
}

/// Where a block of another kind is read, the positions seen do not change.
proof fn lemma_seen_step(blocks: Seq<CellBlock>, kind: ElementKind, k: int)
    requires
        mesh_ordered(blocks),
        0 < k <= blocks.len(),
    ensures
        seen_before(blocks, kind, k) == (if blocks[k - 1].kind == kind {
            Some(k - 1)
        } else {
            seen_before(blocks, kind, k - 1)
        }),
{
    lemma_first_kind_found(blocks, kind, 0);
    if blocks[k - 1].kind == kind {
        lemma_first_kind_ordered(blocks, kind, 0, k - 1);
    }
}

/// The reader's first pass over the written sections.
proof fn lemma_first_pass(blocks: Seq<CellBlock>, k: int)
    requires
        roundtrip_ready(blocks),
        0 <= k <= blocks.len(),
        forall|t: int| 0 <= t < blocks.len() ==> (#[trigger] plan_block(blocks, t)) is Some,
    ensures
        decode_first_pass(written_sections(planned(blocks)).take(k)) == (DecodeOutcome::Decoded {
            cells: non_phed_cells(blocks.take(k)),
            last_pgon: seen_before(blocks, ElementKind::PGON, k),
            last_phed: seen_before(blocks, ElementKind::PHED, k),
        }),
    decreases k,
{
    let secs = written_sections(planned(blocks));
    if k == 0 {
        assert(blocks.take(0) =~= Seq::<CellBlock>::empty());
        assert(non_phed_cells(blocks.take(0)) =~= Seq::<CellView>::empty());
        assert(secs.take(0) =~= Seq::<SectionView>::empty());
        lemma_first_kind_found(blocks, ElementKind::PGON, 0);
        lemma_first_kind_found(blocks, ElementKind::PHED, 0);
        assert(seen_before(blocks, ElementKind::PGON, 0) is None);
        assert(seen_before(blocks, ElementKind::PHED, 0) is None);
    } else {
        lemma_first_pass(blocks, k - 1);
        assert(secs.take(k).drop_last() =~= secs.take(k - 1));
        lemma_non_phed_push(blocks, k);
        lemma_seen_step(blocks, ElementKind::PGON, k);
        lemma_seen_step(blocks, ElementKind::PHED, k);
        let b = blocks[k - 1];
        let cells = cells_of(b);
        let sec = secs[k - 1];
        assert(secs.take(k).last() == sec);
        assert(plan_block(blocks, k - 1) is Some);
        let v = plan_block(blocks, k - 1).unwrap();
        assert(sec.type_code == v.cgns_code);
        assert(spec_cgns_code(b.kind) is Some);
        crate::kinds::law_cgns_codes_roundtrip(b.kind, 0);
        assert(spec_cgns_kind(sec.type_code) == Some(b.kind));
        lemma_range_roundtrip(blocks, k - 1);
        assert(range_count(sec.element_range.unwrap()) == Some(cells.len() as usize));
        let prev = non_phed_cells(blocks.take(k - 1));
        let pg = seen_before(blocks, ElementKind::PGON, k - 1);
        let ph = seen_before(blocks, ElementKind::PHED, k - 1);
        assert(decode_first_pass(secs.take(k)) == decode_step(prev, pg, ph, sec, k - 1));
        if b.kind == ElementKind::PGON {
            lemma_pgon_roundtrip(cells);
            assert(sec.start_offsets == Some(offsets_of_parts(encoded_parts(cells))));
            assert(sec.connectivity == encoded_parts(cells).flatten());
            assert(first_pass_part(b) == block_cells(ElementKind::PGON, cells));
            assert(decode_step(prev, pg, ph, sec, k - 1) == (DecodeOutcome::Decoded {
                cells: prev + block_cells(ElementKind::PGON, cells),
                last_pgon: Some(k - 1),
                last_phed: ph,
            }));
        } else if b.kind == ElementKind::PHED {
            assert(sec.start_offsets is Some);
            assert(first_pass_part(b) =~= Seq::<CellView>::empty());
            assert(prev + first_pass_part(b) =~= prev);
        } else {
            assert(nodes_carried(cells));
            assert forall|c: int| 0 <= c < cells.len() implies (#[trigger] cells[c]).len()
                == kind_stride(b.kind) by {
                assert(fixed_size(blocks[k - 1].kind));
            }
            lemma_regular_roundtrip(b.kind, cells, kind_stride(b.kind));
            assert(sec.connectivity == encoded_parts(cells).flatten());
            assert(spec_cgns_stride(sec.type_code).unwrap() == kind_stride(b.kind));
            assert(decode_step(prev, pg, ph, sec, k - 1) == (DecodeOutcome::Decoded {
                cells: prev + block_cells(b.kind, cells),
                last_pgon: pg,
                last_phed: ph,
            }));
        }
    }
}


/// Without polyhedron blocks, the first pass keeps every cell.
proof fn lemma_non_phed_all(blocks: Seq<CellBlock>, k: int)
    requires
        0 <= k <= blocks.len(),
        forall|i: int| 0 <= i < k ==> (#[trigger] blocks[i].kind) != ElementKind::PHED,
    ensures
        non_phed_cells(blocks.take(k)) == mesh_cells(blocks.take(k)),
    decreases k,
{
    if k == 0 {
        assert(non_phed_cells(blocks.take(0)) =~= Seq::<CellView>::empty());
        assert(mesh_cells(blocks.take(0)) =~= Seq::<CellView>::empty());
    } else {
        lemma_non_phed_all(blocks, k - 1);
        lemma_non_phed_push(blocks, k);
        assert(blocks[k - 1].kind != ElementKind::PHED);
    }
}

/// A mesh written by the writer and read back by the reader has the same
/// cells, block after block: the writer refuses none of its blocks, and the
/// reader, given the sections the writer planned, reads every cell back with
/// its kind and its node list (with no family).
pub proof fn law_write_then_read(blocks: Seq<CellBlock>)
    requires
        roundtrip_ready(blocks),
    ensures
        plan_sections(blocks) == Ok::<Seq<SectionPlanView>, crate::element_write::WriteError>(
            planned(blocks),
        ),
        decode_sections(written_sections(planned(blocks))) matches DecodeOutcome::Decoded {
            cells,
            ..
        } && cells == mesh_cells(blocks),
{
    let n = blocks.len() as int;
    assert forall|k: int| 0 <= k < n implies (#[trigger] plan_block(blocks, k)) is Some by {
        if blocks[k].kind == ElementKind::PHED {
            let p = pgon_block(blocks).unwrap();
            lemma_phed_roundtrip(blocks, p, cells_of(blocks[k]));
        }
    }
    assert(plan_sections(blocks) == Ok::<Seq<SectionPlanView>, crate::element_write::WriteError>(
        planned(blocks),
    ));
    let secs = written_sections(planned(blocks));
    lemma_first_pass(blocks, n);
    assert(secs.take(n) =~= secs);
    assert(blocks.take(n) =~= blocks);
    lemma_first_kind_found(blocks, ElementKind::PHED, 0);
    lemma_first_kind_found(blocks, ElementKind::PGON, 0);
    match seen_before(blocks, ElementKind::PHED, n) {
        None => {
            assert forall|i: int| 0 <= i < n implies (#[trigger] blocks[i].kind)
                != ElementKind::PHED by {
                if blocks[i].kind == ElementKind::PHED {
                    lemma_first_kind_ordered(blocks, ElementKind::PHED, 0, i);
                }
            }
            lemma_non_phed_all(blocks, n);
        },
        Some(h) => {
            assert(blocks[h].kind == ElementKind::PHED);
            let p = pgon_block(blocks).unwrap();
            assert(faces_resolvable(blocks, p));
            lemma_first_kind_found(blocks, ElementKind::PGON, 0);
            assert(seen_before(blocks, ElementKind::PGON, n) == Some(p));
            if h < n - 1 {
                assert(blocks[h].kind.rank() < blocks[h + 1].kind.rank());
            }
            assert(h == n - 1);
            let cells = cells_of(blocks[h]);
            lemma_phed_roundtrip(blocks, p, cells);
            assert(secs[h].connectivity == cells.map_values(
                |c: Seq<usize>| cell_refs(blocks, c),
            ).flatten());
            assert(secs[h].start_offsets == Some(
                offsets_of_parts(cells.map_values(|c: Seq<usize>| cell_refs(blocks, c))),
            ));
            assert(secs[p].connectivity == pgon_conn(cells_of(blocks[p])));
            assert(secs[p].start_offsets == Some(pgon_offsets(cells_of(blocks[p]))));
            assert forall|i: int| 0 <= i < h implies (#[trigger] blocks[i].kind)
                != ElementKind::PHED by {
                assert(blocks[i].kind.rank() < blocks[h].kind.rank());
            }
            lemma_non_phed_all(blocks, h);
            lemma_non_phed_push(blocks, n);
            assert(blocks.take(n - 1) =~= blocks.take(h));
            assert(first_pass_part(blocks[h]) =~= Seq::<CellView>::empty());
            assert(non_phed_cells(blocks) =~= mesh_cells(blocks.take(h)));
        },
    }
}


/// The writer numbers elements contiguously: the first section starts at 1,
/// each section's range covers as many elements as its block has, and each
/// section starts right after the previous one.
pub proof fn law_ranges_contiguous(blocks: Seq<CellBlock>)
    requires
        plannable(blocks),
        plan_sections(blocks) is Ok,
    ensures
        forall|k: int|
            0 <= k < blocks.len() ==> #[trigger] planned(blocks)[k].range_end - planned(blocks)[k].range_start
                + 1 == blocks[k].cells.len(),
        blocks.len() > 0 ==> planned(blocks)[0].range_start == 1,
        forall|k: int|
            0 <= k < blocks.len() - 1 ==> #[trigger] planned(blocks)[k + 1].range_start == planned(
                blocks,
            )[k].range_end + 1,
{
    assert forall|k: int| 0 <= k < blocks.len() implies #[trigger] planned(blocks)[k].range_end
        - planned(blocks)[k].range_start + 1 == blocks[k].cells.len() && 1 <= planned(
        blocks,
    )[k].range_start == block_start(blocks, k) && planned(blocks)[k].range_end == count_before(
        blocks,
        k + 1,
    ) by {
        assert(plan_block(blocks, k) is Some);
        lemma_count_bounds(blocks, 0, k);
        lemma_count_bounds(blocks, k + 1, blocks.len() as int);
    }
    assert forall|k: int| 0 <= k < blocks.len() - 1 implies #[trigger] planned(blocks)[k + 1].range_start
        == planned(blocks)[k].range_end + 1 by {
        assert(planned(blocks)[k].range_end == count_before(blocks, k + 1));
        assert(planned(blocks)[k + 1].range_end - planned(blocks)[k + 1].range_start + 1
            == blocks[k + 1].cells.len());
        assert(planned(blocks)[k + 1].range_start == block_start(blocks, k + 1));
    }
}

/// The start offsets that the writer gives a polygon or polyhedron section
/// hold one value more than the section has elements, start at 0, never
/// decrease, and end at the length of the section's connectivity.
pub proof fn law_start_offsets_shape(blocks: Seq<CellBlock>, k: int)
    requires
        plannable(blocks),
        0 <= k < blocks.len(),
        plan_block(blocks, k) matches Some(v) && v.start_offsets is Some,
        plan_block(blocks, k).unwrap().connectivity.len() <= i64::MAX,
    ensures
        ({
            let v = plan_block(blocks, k).unwrap();
            let off = v.start_offsets.unwrap();
            &&& off.len() == blocks[k].cells.len() + 1
            &&& off[0] == 0
            &&& off[off.len() - 1] == v.connectivity.len()
            &&& forall|i: int| 0 <= i < off.len() - 1 ==> #[trigger] off[i] <= off[i + 1]
        }),
{
    let v = plan_block(blocks, k).unwrap();
    let cells = cells_of(blocks[k]);
    let parts = if blocks[k].kind == ElementKind::PGON {
        encoded_parts(cells)
    } else {
        cells.map_values(|c: Seq<usize>| cell_refs(blocks, c))
    };
    assert(v.connectivity == parts.flatten());
    assert(v.start_offsets == Some(offsets_of_parts(parts)));
    let off = offsets_of_parts(parts);
    assert(parts.take(0) =~= Seq::<Seq<i64>>::empty());
    assert(parts.take(parts.len() as int) =~= parts);
    assert forall|i: int| 0 <= i < off.len() - 1 implies #[trigger] off[i] <= off[i + 1] by {
        lemma_flatten_part(parts, i);
    }
}

/// The match found among the first `k` polygons is one of them and holds the face's nodes.
proof fn lemma_last_match_found(pgons: Seq<Seq<usize>>, face: Seq<usize>, k: int)
    requires
        0 <= k <= pgons.len(),
    ensures
        last_match(pgons, face, k) matches Some(j) ==> 0 <= j < k && same_nodes(pgons[j], face),
    decreases k,
{
    if k > 0 {
        lemma_last_match_found(pgons, face, k - 1);
    }
}

/// No block before the first block of a kind has that kind.
proof fn lemma_first_kind_minimal(blocks: Seq<CellBlock>, kind: ElementKind, from: int)
    requires
        0 <= from,
    ensures
        crate::element_write::first_kind(blocks, kind, from) matches Some(i) ==> forall|q: int|
            from <= q < i ==> (#[trigger] blocks[q].kind) != kind,
    decreases blocks.len() - from,
{
    if from < blocks.len() && blocks[from].kind != kind {
        lemma_first_kind_minimal(blocks, kind, from + 1);
    }
}

/// Magnitude of a signed reference.
pub open spec fn ref_magnitude(r: i64) -> int {
    if r < 0 {
        -r
    } else {
        r as int
    }
}

/// Every reference that the writer plans for a polyhedron face names that
/// face by its zone-wide element index: cell `c` of a polyhedron section has
/// one reference per face, and the reference `r` of face `t` has `|r|` within
/// the element range of the mesh's first polygon section, whose polygon at
/// position `|r| - range_start` holds the face's nodes; `r` is positive
/// exactly when the face runs in that polygon's cyclic order. This holds
/// whatever blocks come before the polygon block.
pub proof fn law_face_refs_name_polygons(blocks: Seq<CellBlock>, k: int, c: int, t: int)
    requires
        plannable(blocks),
        plan_sections(blocks) is Ok,
        0 <= k < blocks.len(),
        blocks[k].kind == ElementKind::PHED,
        0 <= c < blocks[k].cells.len(),
        0 <= t < split_faces(cells_of(blocks[k])[c]).len(),
        planned(blocks)[k].connectivity.len() <= i64::MAX,
    ensures
        ({
            let v = planned(blocks)[k];
            let off = v.start_offsets.unwrap();
            let face = split_faces(cells_of(blocks[k])[c])[t];
            let r = v.connectivity[off[c] + t];
            &&& off.len() == blocks[k].cells.len() + 1
            &&& off[c + 1] - off[c] == split_faces(cells_of(blocks[k])[c]).len()
            &&& off[c] + t < v.connectivity.len()
            &&& exists|p: int|
                #![trigger planned(blocks)[p]]
                0 <= p < blocks.len() && planned(blocks)[p].kind == ElementKind::PGON && (forall|q: int|
                    0 <= q < p ==> (#[trigger] planned(blocks)[q]).kind != ElementKind::PGON)
                    && planned(blocks)[p].range_start <= ref_magnitude(r) <= planned(blocks)[p].range_end
                    && same_nodes(
                    cells_of(blocks[p])[ref_magnitude(r) - planned(blocks)[p].range_start],
                    face,
                ) && (r > 0 <==> orientation(
                    cells_of(blocks[p])[ref_magnitude(r) - planned(blocks)[p].range_start],
                    face,
                ) == 1)
        }),
{
    let n = blocks.len() as int;
    assert(plan_block(blocks, k) is Some);
    let cells = cells_of(blocks[k]);
    assert(cell_refs_ok(blocks, cells[c]));
    let faces = split_faces(cells[c]);
    let face = faces[t];
    assert(face_ref(blocks, face) is Some);
    let p = pgon_block(blocks).unwrap();
    lemma_first_kind_found(blocks, ElementKind::PGON, 0);
    lemma_first_kind_minimal(blocks, ElementKind::PGON, 0);
    let pgons = cells_of(blocks[p]);
    lemma_last_match_found(pgons, face, pgons.len() as int);
    let j = last_match(pgons, face, pgons.len() as int).unwrap();
    let o = orientation(pgons[j], face);
    lemma_count_bounds(blocks, 0, p);
    lemma_count_bounds(blocks, p + 1, n);
    assert(count_before(blocks, p + 1) == count_before(blocks, p) + blocks[p].cells.len());
    let bs = block_start(blocks, p);
    assert(1 <= bs + j < i64::MAX);
    assert(o == 1 || o == -1);
    let r0 = face_ref(blocks, face).unwrap();
    assert(r0 == (o * (bs + j)) as i64);
    if o == 1 {
        assert(r0 == bs + j);
    } else {
        assert(r0 == -(bs + j));
    }
    assert(ref_magnitude(r0) == bs + j);

    let parts = cells.map_values(|cc: Seq<usize>| cell_refs(blocks, cc));
    let v = planned(blocks)[k];
    assert(v.connectivity == parts.flatten());
    assert(v.start_offsets == Some(offsets_of_parts(parts)));
    let off = offsets_of_parts(parts);
    lemma_flatten_part(parts, c);
    let a = parts.take(c).flatten().len();
    let b = parts.take(c + 1).flatten().len();
    assert(off[c] == a);
    assert(off[c + 1] == b);
    assert(parts[c] == cell_refs(blocks, cells[c]));
    assert(parts[c].len() == faces.len());
    assert(v.connectivity.subrange(a as int, b as int) == parts[c]);
    assert(v.connectivity[a + t] == parts[c][t]);
    assert(parts[c][t] == r0);
    assert(planned(blocks)[p] == plan_block(blocks, p).unwrap());
    assert(planned(blocks)[p].kind == ElementKind::PGON);
    assert(planned(blocks)[p].range_start == bs);
    assert(planned(blocks)[p].range_end == bs + blocks[p].cells.len() - 1);
    assert forall|q: int| 0 <= q < p implies (#[trigger] planned(blocks)[q]).kind != ElementKind::PGON by {
        assert(planned(blocks)[q] == plan_block(blocks, q).unwrap());
        assert(blocks[q].kind != ElementKind::PGON);
    }
}

/// A mesh with polyhedra, written and read back, gives its cells wherever the
/// polyhedron (`NFACE_n`) section is placed among the written sections, for
/// instance before the polygon (`NGON_n`) section.
pub proof fn law_written_phed_section_anywhere(blocks: Seq<CellBlock>, i: int)
    requires
        roundtrip_ready(blocks),
        blocks.len() > 0,
        blocks[blocks.len() - 1].kind == ElementKind::PHED,
        0 <= i < blocks.len(),
    ensures
        ({
            let secs = written_sections(planned(blocks));
            decode_sections(secs.drop_last().insert(i, secs.last())) matches DecodeOutcome::Decoded {
                cells,
                ..
            } && cells == mesh_cells(blocks)
        }),
{
    let n = blocks.len() as int;
    law_write_then_read(blocks);
    let secs = written_sections(planned(blocks));
    let rest = secs.drop_last();
    let s = secs.last();
    assert forall|j: int| 0 <= j < rest.len() implies !is_phed_section(#[trigger] rest[j]) by {
        assert(blocks[j].kind.rank() < blocks[n - 1].kind.rank());
        assert(plan_block(blocks, j) is Some);
        assert(rest[j].type_code == plan_block(blocks, j).unwrap().cgns_code);
        crate::kinds::law_cgns_codes_roundtrip(blocks[j].kind, 0);
    }
    assert(plan_block(blocks, n - 1) is Some);
    crate::kinds::law_cgns_codes_roundtrip(blocks[n - 1].kind, 0);
    assert(is_phed_section(s));
    assert(s.start_offsets is Some);
    assert(rest.insert(n - 1, s) =~= secs);
    law_phed_section_position(rest, s, i, n - 1);
}

} // verus!
