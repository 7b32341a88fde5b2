//! Boundary conditions: the families they give element indices.
use std::collections::HashMap;
use vstd::prelude::*;
use vstd::std_specs::hash::{axiom_i32_obeys_hash_table_key_model, axiom_random_state_builds_valid_hashers};

verus! {

/// The element indices that one boundary condition (`BC_t`) lists.
#[derive(Clone, Debug)]
pub enum BcPoints {
    /// A `PointList`: the indices themselves.
    List(Vec<i32>),
    /// A `PointRange`: first and last index (inclusive).
    Range(Vec<i32>),
    /// Neither: the condition lists no element.
    Neither,
}

/// The indices that a boundary condition lists.
pub open spec fn bc_indices(b: BcPoints) -> Seq<i32> {
    match b {
        BcPoints::List(v) => v@,
        BcPoints::Range(v) => {
            let a = v@[0] as int;
            let z = v@[1] as int;
            Seq::new(
                if z >= a {
                    (z - a + 1) as nat
                } else {
                    0
                },
                |t: int| (a + t) as i32,
            )
        },
        BcPoints::Neither => Seq::empty(),
    }
}

/// A range listing holds its two bounds.
pub open spec fn bc_well_formed(b: BcPoints) -> bool {
    match b {
        BcPoints::Range(v) => v@.len() >= 2,
        _ => true,
    }
}

/// The map after giving each listed index the family, in listing order.
pub open spec fn assign_family(m: Map<i32, usize>, ids: Seq<i32>, family: usize) -> Map<i32, usize>
    decreases ids.len(),
{
    if ids.len() == 0 {
        m
    } else {
        assign_family(m, ids.drop_last(), family).insert(ids.last(), family)
    }
}

/// Family of each element index after the first `k` boundary conditions
/// (the family of condition `k` is `k + 1`; later conditions win).
pub open spec fn bc_families(bcs: Seq<BcPoints>, k: int) -> Map<i32, usize>
    decreases k,
{
    if k <= 0 {
        Map::empty()
    } else {
        assign_family(bc_families(bcs, k - 1), bc_indices(bcs[k - 1]), k as usize)
    }
}

/// Whether every range listing holds its two bounds.
pub fn bc_points_readable(bcs: &[BcPoints]) -> (r: bool)
    ensures
        r == forall|k: int| 0 <= k < bcs.len() ==> bc_well_formed(#[trigger] bcs@[k]),
{
    let mut k: usize = 0;
    while k < bcs.len()
        invariant
            k <= bcs.len(),
            forall|j: int| 0 <= j < k ==> bc_well_formed(#[trigger] bcs@[j]),
        decreases bcs.len() - k,
    {
        match &bcs[k] {
            BcPoints::Range(v) => {
                if v.len() < 2 {
                    return false;
                }
            },
            _ => {},
        }
        k = k + 1;
    }
    true
}

/// Gives each element index listed by a boundary condition the family of
/// that condition: the position of the condition among the zone's
/// conditions, counted from 1. Where several conditions list an index, the
/// last one wins.
pub fn collect_bc_families(bcs: &[BcPoints]) -> (r: HashMap<i32, usize>)
    requires
        forall|k: int| 0 <= k < bcs.len() ==> bc_well_formed(#[trigger] bcs@[k]),
        bcs.len() < usize::MAX,
    ensures
        r@ == bc_families(bcs@, bcs.len() as int),
{
    broadcast use axiom_i32_obeys_hash_table_key_model, axiom_random_state_builds_valid_hashers;

    let mut map: HashMap<i32, usize> = HashMap::new();
    let mut k: usize = 0;
    while k < bcs.len()
        invariant
            k <= bcs.len() < usize::MAX,
            forall|j: int| 0 <= j < bcs.len() ==> bc_well_formed(#[trigger] bcs@[j]),
            map@ == bc_families(bcs@, k as int),
        decreases bcs.len() - k,
    {
        let family = k + 1;
        let ghost base = map@;
        match &bcs[k] {
            BcPoints::List(ids) => {
                let mut t: usize = 0;
                while t < ids.len()
                    invariant
                        t <= ids.len(),
                        map@ == assign_family(base, ids@.take(t as int), family),
                    decreases ids.len() - t,
                {
                    map.insert(ids[t], family);
                    assert(ids@.take(t + 1).drop_last() =~= ids@.take(t as int));
                    t = t + 1;
                }
                assert(ids@.take(ids.len() as int) =~= ids@);
            },
            BcPoints::Range(flat) => {
                assert(bc_well_formed(bcs@[k as int]));
                let a = flat[0];
                let z = flat[1];
                let ghost ids = bc_indices(bcs@[k as int]);
                let mut x: i64 = a as i64;
                while x <= z as i64
                    invariant
                        a as i64 <= x,
                        z >= a ==> x <= z as i64 + 1,
                        z < a ==> x == a,
                        ids == bc_indices(bcs@[k as int]),
                        bcs@[k as int] == BcPoints::Range(*flat),
                        flat@.len() >= 2,
                        a == flat@[0],
                        z == flat@[1],
                        map@ == assign_family(base, ids.take(x - a), family),
                    decreases z as i64 + 1 - x,
                {
                    map.insert(x as i32, family);
                    assert(ids.take(x + 1 - a).drop_last() =~= ids.take(x - a));
                    x = x + 1;
                }
                assert(ids.take(x - a) =~= ids);
            },
            BcPoints::Neither => {
                assert(bc_indices(bcs@[k as int]) =~= Seq::<i32>::empty());
            },
        }
        k = k + 1;
    }
    map
}


/// Why a boundary condition's family name is not given.
#[derive(Clone, Copy, Debug, PartialEq, Eq, Structural)]
pub enum FamilyNameError {
    /// Family names (from `FamilyBC_t`, `FamilyName_t` or the `BC_t` node) are not read yet.
    NotImplemented,
}

/// Family name of a boundary condition. Reading family names is not
/// implemented: the name is always refused.
pub fn family_name() -> (r: Result<String, FamilyNameError>)
    ensures
        r == Err::<String, FamilyNameError>(FamilyNameError::NotImplemented),
{
    Err(FamilyNameError::NotImplemented)
}

} // verus!
