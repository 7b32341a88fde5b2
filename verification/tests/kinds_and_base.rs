use hdf_reader::base::{BaseDimError, CgnsBaseDim};
use hdf_reader::bc::{family_name, FamilyNameError};
use hdf_reader::kinds::{
    cgns_code_of, cgns_code_to_element_type, cgns_element_info, element_type_to_cgns,
    into_vtk_u8, nodes_per_cgns_code, to_element_type, vtk_code_of, vtk_code_supported,
    ElementKind,
};

#[test]
fn cgns_codes_name_kinds() {
    assert_eq!(cgns_code_to_element_type(2), Some(ElementKind::VERTEX));
    assert_eq!(cgns_code_to_element_type(5), Some(ElementKind::TRI3));
    assert_eq!(cgns_code_to_element_type(17), Some(ElementKind::HEX8));
    assert_eq!(cgns_code_to_element_type(22), Some(ElementKind::PGON));
    assert_eq!(cgns_code_to_element_type(23), Some(ElementKind::PHED));
    assert_eq!(cgns_code_to_element_type(4), None);
    assert_eq!(cgns_code_to_element_type(-1), None);
}

#[test]
fn cgns_element_info_gives_stride() {
    let info = cgns_element_info(10).unwrap();
    assert_eq!(info.element_type, ElementKind::TET4);
    assert_eq!(info.nodes_per_cell, Some(4));
    let poly = cgns_element_info(22).unwrap();
    assert_eq!(poly.element_type, ElementKind::PGON);
    assert_eq!(poly.nodes_per_cell, None);
    assert!(cgns_element_info(9).is_none());
}

#[test]
fn cgns_code_tables_round_trip() {
    let kinds = [
        ElementKind::VERTEX,
        ElementKind::SEG2,
        ElementKind::TRI3,
        ElementKind::QUAD4,
        ElementKind::TET4,
        ElementKind::HEX8,
        ElementKind::PGON,
        ElementKind::PHED,
    ];
    for k in kinds {
        let code = element_type_to_cgns(k);
        assert_eq!(cgns_code_to_element_type(code), Some(k));
        assert_eq!(cgns_code_of(k), Some(code));
        let v = into_vtk_u8(k);
        assert_eq!(to_element_type(v), k);
        assert_eq!(vtk_code_of(k), Some(v));
    }
    assert_eq!(cgns_code_of(ElementKind::QUAD8), None);
    assert_eq!(vtk_code_of(ElementKind::SPLINE), None);
}

#[test]
fn strides_of_codes() {
    assert_eq!(nodes_per_cgns_code(2), Some(1));
    assert_eq!(nodes_per_cgns_code(3), Some(2));
    assert_eq!(nodes_per_cgns_code(7), Some(4));
    assert_eq!(nodes_per_cgns_code(17), Some(8));
    assert_eq!(nodes_per_cgns_code(22), None);
    assert_eq!(nodes_per_cgns_code(23), None);
}

#[test]
fn vtk_codes() {
    assert_eq!(to_element_type(1), ElementKind::VERTEX);
    assert_eq!(to_element_type(7), ElementKind::PGON);
    assert_eq!(to_element_type(42), ElementKind::PHED);
    assert_eq!(into_vtk_u8(ElementKind::QUAD4), 9);
    assert_eq!(into_vtk_u8(ElementKind::HEX8), 12);
    assert!(vtk_code_supported(10));
    assert!(!vtk_code_supported(2));
    assert!(!vtk_code_supported(255));
}

#[test]
fn base_dimensions_validate() {
    for (c, p) in [(3, 3), (2, 3), (2, 2), (1, 1)] {
        assert_eq!(CgnsBaseDim { cell_dim: c, phys_dim: p }.validate(), Ok(()));
    }
    assert_eq!(
        CgnsBaseDim { cell_dim: 3, phys_dim: 2 }.validate(),
        Err(BaseDimError::UnsupportedDimensions { cell_dim: 3, phys_dim: 2 })
    );
    assert!(CgnsBaseDim { cell_dim: 1, phys_dim: 3 }.validate().is_err());
}

#[test]
fn base_dimensions_from_data() {
    assert_eq!(
        CgnsBaseDim::from_base_data(&[3, 3]),
        Ok(CgnsBaseDim { cell_dim: 3, phys_dim: 3 })
    );
    assert_eq!(
        CgnsBaseDim::from_base_data(&[2, 3, 7]),
        Ok(CgnsBaseDim { cell_dim: 2, phys_dim: 3 })
    );
    assert_eq!(CgnsBaseDim::from_base_data(&[3]), Err(BaseDimError::TooFewValues));
    assert_eq!(CgnsBaseDim::from_base_data(&[]), Err(BaseDimError::TooFewValues));
    assert_eq!(
        CgnsBaseDim::from_base_data(&[-1, 3]),
        Err(BaseDimError::UnsupportedDimensions { cell_dim: usize::MAX, phys_dim: 3 })
    );
}

#[test]
fn family_name_is_refused() {
    assert_eq!(family_name(), Err(FamilyNameError::NotImplemented));
}
