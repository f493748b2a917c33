//! The caller-supplied id mapping: a total function from old object id to
//! new object id, applied identically to every retained occurrence.

use vstd::prelude::*;

verus! {

/// A mapping from old object ids to new object ids.
///
/// The engine invokes it once per surviving object id and once per valid
/// reference found in a surviving body. Within one accumulation run every
/// occurrence of a given old id must yield the same new id; that is
/// captured by requiring the mapped function to be unchanged by calls.
pub trait Mapping: Sized {
    /// The mathematical function this value maps ids through.
    spec fn map_spec(&self, old_id: int) -> int;

    /// Map one positive object id to its positive replacement.
    fn map_id(&mut self, old_id: i32) -> (r: i32)
        requires
            0 < old_id,
        ensures
            r as int == old(self).map_spec(old_id as int),
            0 < r,
            forall|x: int| final(self).map_spec(x) == old(self).map_spec(x),
    ;
}

/// The mapped function of a mapping, as a value.
pub open spec fn map_fn_of<M: Mapping>(m: &M) -> spec_fn(int) -> int {
    |x: int| m.map_spec(x)
}

/// The mapping that leaves every id as it is.
pub struct IdentityMapping;

impl Mapping for IdentityMapping {
    open spec fn map_spec(&self, old_id: int) -> int {
        old_id
    }

    fn map_id(&mut self, old_id: i32) -> (r: i32) {
        old_id
    }
}

/// Look `x` up among the pairs, front to back; pairs whose replacement is
/// not a positive id are ignored, and an id without a pair keeps itself.
pub open spec fn table_lookup(pairs: Seq<(i32, i32)>, x: int) -> int
    decreases pairs.len(),
{
    if pairs.len() == 0 {
        x
    } else if pairs[0].0 as int == x && pairs[0].1 > 0 {
        pairs[0].1 as int
    } else {
        table_lookup(pairs.drop_first(), x)
    }
}

/// A mapping given in advance as a table of (old id, new id) pairs; ids
/// without an entry are kept. Pairs whose new id is not positive are
/// ignored, since object ids are positive.
pub struct TableMapping {
    pub pairs: Vec<(i32, i32)>,
}

impl Mapping for TableMapping {
    open spec fn map_spec(&self, old_id: int) -> int {
        table_lookup(self.pairs@, old_id)
    }

    fn map_id(&mut self, old_id: i32) -> (r: i32) {
        let mut k: usize = 0;
        proof {
            assert(self.pairs@.skip(0) =~= self.pairs@);
        }
        while k < self.pairs.len()
            invariant
                k <= self.pairs@.len(),
                0 < old_id,
                table_lookup(self.pairs@, old_id as int) == table_lookup(
                    self.pairs@.skip(k as int),
                    old_id as int,
                ),
            decreases self.pairs@.len() - k,
        {
            let (from, to) = self.pairs[k];
            proof {
                assert(self.pairs@.skip(k as int).drop_first() =~= self.pairs@.skip(k + 1));
            }
            if from == old_id && to > 0 {
                return to;
            }
            k = k + 1;
        }
        old_id
    }
}

} // verus!
