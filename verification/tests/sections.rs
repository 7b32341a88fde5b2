use hdf_reader::cells::MeshCell;
use hdf_reader::element_read::{
    decode_element_sections, element_sections_decodable, ElementSection, ReadError,
};
use hdf_reader::element_write::{plan_element_sections, CellBlock, SectionPlan, WriteError};
use hdf_reader::faces::{face_orientation, same_node_set, split_cell_faces};
use hdf_reader::kinds::ElementKind;

const SEP: usize = usize::MAX;

fn tet_faces() -> Vec<Vec<usize>> {
    vec![vec![0, 1, 2], vec![0, 1, 3], vec![1, 2, 3], vec![0, 2, 3]]
}

fn tet_cell() -> Vec<usize> {
    vec![0, 1, 2, SEP, 3, 1, 0, SEP, 1, 2, 3, SEP, 3, 2, 0, SEP]
}

fn tet_blocks() -> Vec<CellBlock> {
    vec![
        CellBlock { kind: ElementKind::PGON, cells: tet_faces() },
        CellBlock { kind: ElementKind::PHED, cells: vec![tet_cell()] },
    ]
}

fn as_section(p: &SectionPlan) -> ElementSection {
    ElementSection {
        type_code: p.cgns_code,
        element_range: Some((p.range_start, p.range_end)),
        connectivity: p.connectivity.clone(),
        start_offsets: p.start_offsets.clone(),
    }
}

fn cell(kind: ElementKind, nodes: Vec<usize>) -> MeshCell {
    MeshCell { kind, nodes, family: None }
}

#[test]
fn writer_plans_ngon_and_nface_sections() {
    let plans = plan_element_sections(&tet_blocks()).unwrap();
    assert_eq!(plans.len(), 2);
    assert_eq!(plans[0].kind, ElementKind::PGON);
    assert_eq!(plans[0].cgns_code, 22);
    assert_eq!((plans[0].range_start, plans[0].range_end), (1, 4));
    assert_eq!(plans[0].connectivity, vec![1, 2, 3, 1, 2, 4, 2, 3, 4, 1, 3, 4]);
    assert_eq!(plans[0].start_offsets, Some(vec![0, 3, 6, 9, 12]));
    assert_eq!(plans[1].cgns_code, 23);
    assert_eq!((plans[1].range_start, plans[1].range_end), (5, 5));
    assert_eq!(plans[1].connectivity, vec![1, -2, 3, -4]);
    assert_eq!(plans[1].start_offsets, Some(vec![0, 4]));
}

#[test]
fn writer_plans_fixed_stride_sections() {
    let blocks = vec![
        CellBlock { kind: ElementKind::TRI3, cells: vec![vec![0, 1, 2], vec![1, 2, 3]] },
        CellBlock { kind: ElementKind::HEX8, cells: vec![vec![0, 1, 2, 3, 4, 5, 6, 7]] },
    ];
    let plans = plan_element_sections(&blocks).unwrap();
    assert_eq!(plans[0].cgns_code, 5);
    assert_eq!((plans[0].range_start, plans[0].range_end), (1, 2));
    assert_eq!(plans[0].connectivity, vec![1, 2, 3, 2, 3, 4]);
    assert_eq!(plans[0].start_offsets, None);
    assert_eq!(plans[1].cgns_code, 17);
    assert_eq!((plans[1].range_start, plans[1].range_end), (3, 3));
    assert_eq!(plans[1].connectivity, vec![1, 2, 3, 4, 5, 6, 7, 8]);
}

#[test]
fn writer_refuses_face_without_polygon() {
    let blocks = vec![
        CellBlock { kind: ElementKind::PGON, cells: vec![vec![0, 1, 2]] },
        CellBlock { kind: ElementKind::PHED, cells: vec![vec![0, 1, 2, SEP, 0, 1, 3, SEP]] },
    ];
    assert!(matches!(plan_element_sections(&blocks), Err(WriteError::FaceNotInPolygons)));
    let no_pgon = vec![CellBlock { kind: ElementKind::PHED, cells: vec![vec![0, 1, 2, SEP]] }];
    assert!(matches!(plan_element_sections(&no_pgon), Err(WriteError::FaceNotInPolygons)));
}

#[test]
fn written_sections_read_back_as_the_mesh() {
    let plans = plan_element_sections(&tet_blocks()).unwrap();
    let sections: Vec<ElementSection> = plans.iter().map(as_section).collect();
    assert!(element_sections_decodable(&sections));
    let cells = decode_element_sections(&sections).unwrap();
    let mut expected: Vec<MeshCell> =
        tet_faces().into_iter().map(|f| cell(ElementKind::PGON, f)).collect();
    expected.push(cell(ElementKind::PHED, tet_cell()));
    assert_eq!(cells, expected);
}

#[test]
fn reader_decodes_fixed_stride_sections() {
    let sections = vec![ElementSection {
        type_code: 5,
        element_range: Some((1, 2)),
        connectivity: vec![1, 2, 3, 2, 3, 4],
        start_offsets: None,
    }];
    let cells = decode_element_sections(&sections).unwrap();
    assert_eq!(
        cells,
        vec![cell(ElementKind::TRI3, vec![0, 1, 2]), cell(ElementKind::TRI3, vec![1, 2, 3])]
    );
}

#[test]
fn reader_skips_unknown_codes_and_keeps_last_poly_sections() {
    let sections = vec![
        ElementSection { type_code: 99, element_range: None, connectivity: vec![], start_offsets: None },
        ElementSection {
            type_code: 22,
            element_range: Some((1, 2)),
            connectivity: vec![1, 2, 3, 1, 3, 4],
            start_offsets: Some(vec![0, 3, 6]),
        },
        ElementSection {
            type_code: 23,
            element_range: None,
            connectivity: vec![1, -2],
            start_offsets: Some(vec![0, 2]),
        },
    ];
    let cells = decode_element_sections(&sections).unwrap();
    assert_eq!(
        cells,
        vec![
            cell(ElementKind::PGON, vec![0, 1, 2]),
            cell(ElementKind::PGON, vec![0, 2, 3]),
            cell(ElementKind::PHED, vec![0, 1, 2, SEP, 3, 2, 0, SEP]),
        ]
    );
}

#[test]
fn reader_refuses_poly_section_without_offsets() {
    let pgon = vec![ElementSection {
        type_code: 22,
        element_range: Some((1, 1)),
        connectivity: vec![1, 2, 3],
        start_offsets: None,
    }];
    assert_eq!(
        decode_element_sections(&pgon),
        Err(ReadError::MissingStartOffsets(ElementKind::PGON))
    );
    let phed = vec![ElementSection {
        type_code: 23,
        element_range: None,
        connectivity: vec![1],
        start_offsets: None,
    }];
    assert_eq!(
        decode_element_sections(&phed),
        Err(ReadError::MissingStartOffsets(ElementKind::PHED))
    );
}

#[test]
fn reader_flags_malformed_sections() {
    let zero_node = vec![ElementSection {
        type_code: 3,
        element_range: Some((1, 1)),
        connectivity: vec![0, 1],
        start_offsets: None,
    }];
    assert!(!element_sections_decodable(&zero_node));
    let short = vec![ElementSection {
        type_code: 3,
        element_range: Some((1, 2)),
        connectivity: vec![1, 2, 3],
        start_offsets: None,
    }];
    assert!(!element_sections_decodable(&short));
    let bad_face = vec![
        ElementSection {
            type_code: 22,
            element_range: Some((1, 1)),
            connectivity: vec![1, 2, 3],
            start_offsets: Some(vec![0, 3]),
        },
        ElementSection {
            type_code: 23,
            element_range: None,
            connectivity: vec![2],
            start_offsets: Some(vec![0, 1]),
        },
    ];
    assert!(!element_sections_decodable(&bad_face));
}

#[test]
fn faces_split_and_match() {
    let faces = split_cell_faces(&tet_cell());
    assert_eq!(faces, vec![vec![0, 1, 2], vec![3, 1, 0], vec![1, 2, 3], vec![3, 2, 0]]);
    assert_eq!(split_cell_faces(&vec![SEP, 4, 5, SEP, SEP, 6]), vec![vec![4, 5], vec![6]]);
    assert!(same_node_set(&vec![0, 1, 3], &vec![3, 1, 0]));
    assert!(!same_node_set(&vec![0, 1, 1], &vec![0, 0, 1]));
    assert_eq!(face_orientation(&vec![0, 1, 3], &vec![3, 1, 0]), -1);
    assert_eq!(face_orientation(&vec![0, 1, 2], &vec![1, 2, 0]), 1);
    assert_eq!(face_orientation(&vec![0, 1], &vec![1, 0]), 1);
}

#[test]
fn orientation_of_rotated_faces() {
    let canon = vec![4, 7, 9, 2];
    assert_eq!(face_orientation(&canon, &vec![9, 2, 4, 7]), 1);
    assert_eq!(face_orientation(&canon, &vec![2, 4, 7, 9]), 1);
    assert_eq!(face_orientation(&canon, &vec![9, 7, 4, 2]), -1);
    assert_eq!(face_orientation(&canon, &vec![4, 2, 9, 7]), -1);
}

#[test]
fn rotated_face_reads_back_in_polygon_order() {
    let blocks = vec![
        CellBlock { kind: ElementKind::PGON, cells: vec![vec![0, 1, 2]] },
        CellBlock { kind: ElementKind::PHED, cells: vec![vec![1, 2, 0, SEP, 2, 1, 0, SEP]] },
    ];
    let plans = plan_element_sections(&blocks).unwrap();
    assert_eq!(plans[1].connectivity, vec![1, -1]);
    let sections: Vec<ElementSection> = plans.iter().map(as_section).collect();
    let cells = decode_element_sections(&sections).unwrap();
    assert_eq!(cells[1], cell(ElementKind::PHED, vec![0, 1, 2, SEP, 2, 1, 0, SEP]));
}
