//! The dimensions that a `CGNSBase_t` node declares.
use vstd::prelude::*;

verus! {

/// Cell (topological) and physical (coordinate) dimension of a CGNS base.
#[derive(Clone, Copy, Debug, PartialEq, Eq, Structural)]
pub struct CgnsBaseDim {
    pub cell_dim: usize,
    pub phys_dim: usize,
}

/// A reason for which a base's dimensions are refused.
#[derive(Clone, Copy, Debug, PartialEq, Eq, Structural)]
pub enum BaseDimError {
    /// The base's data holds fewer than two values.
    TooFewValues,
    /// The pair of dimensions is not one the reader supports.
    UnsupportedDimensions { cell_dim: usize, phys_dim: usize },
}

impl CgnsBaseDim {
    /// The supported pairs: volume and surface meshes in 3-D space, surface
    /// meshes in the plane, line meshes on the line.
    pub open spec fn supported(self) -> bool {
        (self.cell_dim == 3 && self.phys_dim == 3) || (self.cell_dim == 2 && self.phys_dim == 3) || (
        self.cell_dim == 2 && self.phys_dim == 2) || (self.cell_dim == 1 && self.phys_dim == 1)
    }

    /// Accepts the supported dimension pairs and refuses the others.
    pub fn validate(&self) -> (r: Result<(), BaseDimError>)
        ensures
            r is Ok <==> self.supported(),
            r is Err ==> r == Err::<(), BaseDimError>(
                BaseDimError::UnsupportedDimensions { cell_dim: self.cell_dim, phys_dim: self.phys_dim },
            ),
    {
        match (self.cell_dim, self.phys_dim) {
            (3, 3) | (2, 3) | (2, 2) | (1, 1) => Ok(()),
            (c, p) => Err(BaseDimError::UnsupportedDimensions { cell_dim: c, phys_dim: p }),
        }
    }

    /// Dimensions from the values of a base's data: the first two values,
    /// each taken as an index-sized integer, then validated.
    pub fn from_base_data(data: &[i32]) -> (r: Result<CgnsBaseDim, BaseDimError>)
        ensures
            data.len() < 2 ==> r == Err::<CgnsBaseDim, BaseDimError>(BaseDimError::TooFewValues),
            data.len() >= 2 ==> {
                let d = CgnsBaseDim { cell_dim: data@[0] as usize, phys_dim: data@[1] as usize };
                if d.supported() {
                    r == Ok::<CgnsBaseDim, BaseDimError>(d)
                } else {
                    r == Err::<CgnsBaseDim, BaseDimError>(
                        BaseDimError::UnsupportedDimensions {
                            cell_dim: d.cell_dim,
                            phys_dim: d.phys_dim,
                        },
                    )
                }
            },
    {
        if data.len() < 2 {
            return Err(BaseDimError::TooFewValues);
        }
        let d = CgnsBaseDim { cell_dim: data[0] as usize, phys_dim: data[1] as usize };
        match d.validate() {
            Ok(()) => Ok(d),
            Err(e) => Err(e),
        }
    }
}

} // verus!
