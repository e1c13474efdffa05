use vstd::prelude::*;

use crate::geometry::Point;
use crate::pathfinder::Pathfinder;
use crate::regions::region_index_of;

verus! {

/// Relies on `rand::Rng::gen_range` over `rand::thread_rng`: a value drawn
/// from `0..len`, which is below `len`. The range must not be empty.
#[verifier::external_body]
fn random_index(len: usize) -> (r: usize)
    requires
        len > 0,
    ensures
        r < len,
{
    rand::Rng::gen_range(&mut rand::thread_rng(), 0..len)
}

impl Pathfinder {
    /// Where a character at `pos` is put back: nowhere while a region holds
    /// it, otherwise the spawner `spawners[pick]`, if there is one.
    pub fn relocation(&self, pos: Point, spawners: &Vec<Point>, pick: usize) -> (r: Option<Point>)
        ensures
            r == if region_index_of(self.regions@, pos) is None && pick < spawners@.len() {
                Some(spawners@[pick as int])
            } else {
                None
            },
    {
        match self.get_region_index(pos) {
            Some(_) => None,
            None => if pick < spawners.len() {
                Some(spawners[pick])
            } else {
                None
            },
        }
    }

    /// Puts a character that has left every region back on one of the
    /// `spawners`, drawn at random; a character inside a region stays.
    pub fn relocate(&self, pos: Point, spawners: &Vec<Point>) -> (r: Option<Point>)
        ensures
            region_index_of(self.regions@, pos) is Some || spawners@.len() == 0 ==> r is None,
            region_index_of(self.regions@, pos) is None && spawners@.len() > 0 ==> exists|k: int|
                0 <= k < spawners@.len() && r == Some(#[trigger] spawners@[k]),
    {
        if spawners.len() == 0 {
            return None;
        }
        let pick = random_index(spawners.len());
        self.relocation(pos, spawners, pick)
    }
}

} // verus!
