use hdf_reader::bc::{collect_bc_families, BcPoints};
use hdf_reader::cells::MeshCell;
use hdf_reader::element_write::CellBlock;
use hdf_reader::kinds::ElementKind;
use hdf_reader::legacy::{
    decode_legacy_sections, legacy_sections_decodable, section_order, LegacySection,
};
use hdf_reader::text::{
    c1_bytes, c1_padded, c1_text, clean_label, first_with_label, is_unstructured, null_padded,
    positions_of_label, trim_chars,
};
use hdf_reader::vtk::{vtk_arrays, vtk_grid_cells, vtk_grid_readable, vtk_group_kind, VtkGroupKind};
use std::collections::HashMap;

fn chars(s: &str) -> Vec<char> {
    s.chars().collect()
}

#[test]
fn labels_are_cleaned() {
    assert_eq!(clean_label(&chars("  Zone_t\0\0")), chars("Zone_t"));
    assert_eq!(clean_label(&chars("\0Elements_t \t")), chars("Elements_t"));
    assert_eq!(clean_label(&chars("BC_t \0")), chars("BC_t "));
    assert_eq!(trim_chars(&chars("\u{a0} x \u{3000}"), false), chars("x"));
    assert_eq!(trim_chars(&chars("   "), false), chars(""));
}

#[test]
fn c1_text_stops_at_zero_and_trims() {
    let data: Vec<i8> = b" Unstructured \0junk".iter().map(|&b| b as i8).collect();
    assert_eq!(c1_text(&data), chars("Unstructured"));
    assert!(is_unstructured(&c1_text(&data)));
    assert!(!is_unstructured(&chars("Structured")));
    assert_eq!(c1_text(&[0xE9u8 as i8, 0x41]), chars("\u{e9}A"));
    assert_eq!(c1_text(&[]), chars(""));
}

#[test]
fn labels_are_found_in_order() {
    let labels = vec![Some(chars("Zone_t")), None, Some(chars("BC_t")), Some(chars("Zone_t"))];
    assert_eq!(first_with_label(&labels, &chars("Zone_t")), Some(0));
    assert_eq!(first_with_label(&labels, &chars("BC_t")), Some(2));
    assert_eq!(first_with_label(&labels, &chars("Family_t")), None);
    assert_eq!(positions_of_label(&labels, &chars("Zone_t")), vec![0, 3]);
    assert_eq!(positions_of_label(&labels, &chars("X")), Vec::<usize>::new());
}

#[test]
fn strings_are_null_padded() {
    assert_eq!(null_padded(b"MT", 3), vec![b'M', b'T', 0]);
    assert_eq!(null_padded(b"Zone_t", 8), b"Zone_t\0\0".to_vec());
    assert_eq!(c1_bytes(b"Ab"), vec![65i8, 98]);
    let fmt = c1_padded(b"IEEE_LITTLE_32", 15);
    assert_eq!(fmt.len(), 15);
    assert_eq!(fmt[13], b'2' as i8);
    assert_eq!(fmt[14], 0);
}

#[test]
fn sections_are_ordered_stably_by_key() {
    assert_eq!(section_order(&[5, i32::MAX, 1, 5]), vec![2, 0, 3, 1]);
    assert_eq!(section_order(&[]), Vec::<usize>::new());
    assert_eq!(section_order(&[3, 2, 1]), vec![2, 1, 0]);
}

#[test]
fn bc_families_later_conditions_win() {
    let bcs = vec![BcPoints::List(vec![3, 4]), BcPoints::Neither, BcPoints::Range(vec![4, 6])];
    let map = collect_bc_families(&bcs);
    let mut expected = HashMap::new();
    expected.insert(3, 1);
    expected.insert(4, 3);
    expected.insert(5, 3);
    expected.insert(6, 3);
    assert_eq!(map, expected);
    assert!(collect_bc_families(&[BcPoints::Range(vec![5, 2])]).is_empty());
}

#[test]
fn legacy_sections_get_running_indices_and_families() {
    let sections = vec![
        LegacySection { type_code: 5, index_range: vec![], connectivity: vec![1, 2, 3, 2, 3, 4] },
        LegacySection { type_code: 9, index_range: vec![3, 7], connectivity: vec![] },
        LegacySection {
            type_code: 22,
            index_range: vec![],
            connectivity: vec![3, 1, 2, 3, 4, 1, 2, 3, 4, 9, 1],
        },
    ];
    let mut fams = HashMap::new();
    fams.insert(1, 1usize);
    fams.insert(9, 2usize);
    assert!(legacy_sections_decodable(&sections, &fams));
    let cells = decode_legacy_sections(&sections, &fams);
    assert_eq!(
        cells,
        vec![
            MeshCell { kind: ElementKind::TRI3, nodes: vec![0, 1, 2], family: Some(1) },
            MeshCell { kind: ElementKind::TRI3, nodes: vec![1, 2, 3], family: None },
            MeshCell { kind: ElementKind::PGON, nodes: vec![0, 1, 2], family: None },
            MeshCell { kind: ElementKind::PGON, nodes: vec![0, 1, 2, 3], family: Some(2) },
        ]
    );
}

#[test]
fn legacy_last_chunk_may_be_short_and_negatives_extend() {
    let sections =
        vec![LegacySection { type_code: 3, index_range: vec![], connectivity: vec![1, 2, 0] }];
    let cells = decode_legacy_sections(&sections, &HashMap::new());
    assert_eq!(cells.len(), 2);
    assert_eq!(cells[0].nodes, vec![0, 1]);
    assert_eq!(cells[1].nodes, vec![usize::MAX]);
    let bad = vec![LegacySection { type_code: 9, index_range: vec![1], connectivity: vec![] }];
    assert!(!legacy_sections_decodable(&bad, &HashMap::new()));
}

#[test]
fn vtk_grid_cells_follow_offsets() {
    let cells = vtk_grid_cells(&[0, 3, 7], &[0, 1, 2, 0, 1, 2, 3], &[5, 9]);
    assert_eq!(
        cells,
        vec![
            MeshCell { kind: ElementKind::TRI3, nodes: vec![0, 1, 2], family: None },
            MeshCell { kind: ElementKind::QUAD4, nodes: vec![0, 1, 2, 3], family: None },
        ]
    );
    assert!(vtk_grid_readable(&[0, 3, 7], &[0, 1, 2, 0, 1, 2, 3], &[5, 9]));
    assert!(!vtk_grid_readable(&[3, 7], &[0, 1, 2, 0, 1, 2, 3], &[5, 9]));
    assert!(!vtk_grid_readable(&[0, 3], &[0, 1, 2], &[2]));
}

#[test]
fn vtk_arrays_flatten_blocks() {
    let blocks = vec![
        CellBlock { kind: ElementKind::TRI3, cells: vec![vec![0, 1, 2]] },
        CellBlock { kind: ElementKind::QUAD4, cells: vec![vec![0, 1, 2, 3], vec![4, 5, 6, 7]] },
        CellBlock { kind: ElementKind::QUAD8, cells: vec![] },
    ];
    let a = vtk_arrays(&blocks);
    assert_eq!(a.types, vec![5, 9, 9]);
    assert_eq!(a.offsets, vec![3, 7, 11]);
    assert_eq!(a.connectivity, vec![0, 1, 2, 0, 1, 2, 3, 4, 5, 6, 7]);
}

#[test]
fn vtk_group_kinds() {
    assert_eq!(vtk_group_kind("UnstructuredGrid"), VtkGroupKind::UnstructuredGrid);
    assert_eq!(vtk_group_kind("MultiBlockDataSet"), VtkGroupKind::Collection);
    assert_eq!(vtk_group_kind("PartitionedDataSetCollection"), VtkGroupKind::Collection);
    assert_eq!(vtk_group_kind("ImageData"), VtkGroupKind::Other);
}
