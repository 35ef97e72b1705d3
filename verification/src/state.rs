use crate::coord::Coord;
use crate::search::sat_add;
use std::rc::Rc;
use vstd::prelude::*;

verus! {

/// A grid-search node: a coordinate together with the accumulated cost of the
/// path that reached it, a heuristic estimate of the remaining cost, and a
/// shared link to the state it was expanded from.
pub struct State {
    pub cost: u32,
    pub heuristic: u32,
    pub coord: Coord,
    pub parent: Option<Rc<State>>,
}

impl State {
    /// The start-to-here sequence of coordinates along the parent chain.
    pub open spec fn chain(self) -> Seq<Coord>
        decreases self,
    {
        match self.parent {
            None => seq![self.coord],
            Some(p) => (*p).chain().push(self.coord),
        }
    }

    /// Accumulated cost plus heuristic estimate, saturating at `u32::MAX`.
    pub open spec fn spec_estimated_cost(self) -> u32 {
        sat_add(self.cost, self.heuristic)
    }

    pub fn estimated_cost(&self) -> (r: u32)
        ensures
            r == self.spec_estimated_cost(),
    {
        if self.cost > u32::MAX - self.heuristic {
            u32::MAX
        } else {
            self.cost + self.heuristic
        }
    }

    /// Walk the parent chain back to the root, collecting each coordinate,
    /// and reverse the collection into start-to-here order.
    pub fn backtrace(&self) -> (r: Vec<Coord>)
        ensures
            r@ == self.chain(),
    {
        let mut collected: Vec<Coord> = Vec::new();
        collected.push(self.coord);
        let mut state: &State = self;
        proof {
            assert(collected@ =~= seq![self.coord]);
            assert(self.chain() =~= state.chain().drop_last() + collected@.reverse());
        }
        loop
            invariant
                collected@.len() >= 1,
                self.chain() == state.chain().drop_last() + collected@.reverse(),
                collected@.last() == state.coord,
            ensures
                self.chain() == collected@.reverse(),
            decreases state.chain().len(),
        {
            match state.parent {
                Some(ref p) => {
                    collected.push(p.coord);
                    proof {
                        let prev = collected@.drop_last();
                        assert(collected@.reverse() =~= seq![p.coord] + prev.reverse());
                        assert((*p).chain().drop_last() + collected@.reverse() =~= (
                        *p).chain().drop_last().push(p.coord) + prev.reverse());
                        assert((*p).chain().drop_last().push(p.coord) =~= (*p).chain());
                        assert(state.chain().drop_last() == (*p).chain());
                    }
                    state = &**p;
                },
                None => {
                    proof {
                        assert(state.chain() =~= seq![state.coord]);
                        assert(self.chain() =~= collected@.reverse());
                    }
                    break ;
                },
            }
        }
        let mut r: Vec<Coord> = Vec::new();
        let mut i: usize = collected.len();
        while i > 0
            invariant
                i <= collected@.len(),
                r@ == collected@.reverse().take(collected@.len() - i),
            decreases i,
        {
            i = i - 1;
            r.push(collected[i]);
            proof {
                let done = collected@.len() - i;
                assert(collected@.reverse()[done - 1] == collected@[i as int]);
                assert(collected@.reverse().take(done) =~= collected@.reverse().take(
                    done - 1,
                ).push(collected@.reverse()[done - 1]));
            }
        }
        proof {
            assert(r@ =~= collected@.reverse());
        }
        r
    }
}

} // verus!
