//! Reprocessing yields as data: the materials one portion of an item
//! refines into.

use std::collections::HashMap;
use vstd::prelude::*;

verus! {

broadcast use vstd::std_specs::hash::group_hash_axioms;

/// One material an item refines into, per portion at full efficiency.
#[derive(Debug, Clone, Copy, PartialEq, Eq)]
pub struct Material {
    pub type_id: i64,
    pub quantity: i64,
}

/// The materials as a map from type id to quantity; when a type id occurs
/// more than once, the later entry wins.
pub open spec fn material_map(ms: Seq<Material>) -> Map<i64, i64>
    decreases ms.len(),
{
    if ms.len() == 0 {
        Map::empty()
    } else {
        material_map(ms.drop_last()).insert(ms.last().type_id, ms.last().quantity)
    }
}

/// A material list as a flat `type_id -> quantity` map (a later entry for
/// the same type id replaces an earlier one).
pub fn as_map(materials: &[Material]) -> (r: HashMap<i64, i64>)
    ensures
        r@ == material_map(materials@),
{
    let mut m: HashMap<i64, i64> = HashMap::new();
    let mut k: usize = 0;
    while k < materials.len()
        invariant
            k <= materials@.len(),
            m@ == material_map(materials@.take(k as int)),
        decreases materials@.len() - k,
    {
        let x = materials[k];
        m.insert(x.type_id, x.quantity);
        assert(materials@.take(k + 1).drop_last() =~= materials@.take(k as int));
        assert(materials@.take(k + 1).last() == x);
        k += 1;
    }
    assert(materials@.take(materials@.len() as int) =~= materials@);
    m
}

} // verus!
