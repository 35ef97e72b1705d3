use std::rc::Rc;
use vstd::prelude::*;
use vstd::seq_lib::*;
use vstd::set_lib::lemma_len_subset;
use vstd::std_specs::cmp::PartialEqSpec;

verus! {

/// What the engine asks of a state type's `==`: the executable comparison
/// decides spec-level equality.
pub open spec fn state_eq_obeyed<T: PartialEq>() -> bool {
    &&& T::obeys_eq_spec()
    &&& forall|a: T, b: T| #[trigger] a.eq_spec(&b) <==> a == b
}

/// The capability contract a caller implements for its domain: the engine
/// sees a state space only through these operations.
pub trait Space {
    type T;

    /// The domain's own well-formedness; every operation may assume it.
    spec fn inv(&self) -> bool;

    /// The model of `start`.
    spec fn spec_start(&self) -> Self::T;

    /// The model of `is_goal`.
    spec fn spec_is_goal(&self, s: Self::T) -> bool;

    /// The model of `expand`.
    spec fn spec_expand(&self, s: Self::T) -> Seq<Self::T>;

    /// The model of `distance`.
    spec fn spec_distance(&self, from: Self::T, to: Self::T) -> u32;

    /// The model of `heuristic`.
    spec fn spec_heuristic(&self, s: Self::T) -> u32;

    /// The single initial state.
    fn start(&self) -> (r: Self::T)
        requires
            self.inv(),
        ensures
            r == self.spec_start(),
    ;

    /// Whether `s` is a goal state.
    fn is_goal(&self, s: &Self::T) -> (r: bool)
        requires
            self.inv(),
        ensures
            r == self.spec_is_goal(*s),
    ;

    /// All states reachable from `s` in one step.
    fn expand(&self, s: &Self::T) -> (r: Vec<Self::T>)
        requires
            self.inv(),
        ensures
            r@ == self.spec_expand(*s),
    ;

    /// The cost of the edge from `from` to an adjacent state `to`.
    fn distance(&self, from: &Self::T, to: &Self::T) -> (r: u32)
        requires
            self.inv(),
        ensures
            r == self.spec_distance(*from, *to),
    ;

    /// An estimate of the remaining cost from `s` to a goal state.
    fn heuristic(&self, s: &Self::T) -> (r: u32)
        requires
            self.inv(),
        ensures
            r == self.spec_heuristic(*s),
    ;
}

/// `a + b`, saturating at `u32::MAX`.
pub open spec fn sat_add(a: u32, b: u32) -> u32 {
    if a + b > u32::MAX {
        u32::MAX
    } else {
        (a + b) as u32
    }
}

/// Each later state of `w` appears among the successors of the state before it.
pub open spec fn linked<S: Space>(space: S, w: Seq<S::T>) -> bool {
    forall|i: int|
        0 <= i < w.len() - 1 ==> #[trigger] space.spec_expand(w[i]).contains(w[i + 1])
}

/// `w` is a walk of the space: it begins at the start state and follows edges.
pub open spec fn is_walk<S: Space>(space: S, w: Seq<S::T>) -> bool {
    &&& w.len() >= 1
    &&& w[0] == space.spec_start()
    &&& linked(space, w)
}

/// A state is reachable when some walk ends in it.
pub open spec fn reachable<S: Space>(space: S, t: S::T) -> bool {
    exists|w: Seq<S::T>| is_walk(space, w) && w.last() == t
}

/// The cost of a walk: the saturating sum of the edge costs along it.
pub open spec fn walk_cost<S: Space>(space: S, w: Seq<S::T>) -> u32
    decreases w.len(),
{
    if w.len() <= 1 {
        0
    } else {
        sat_add(walk_cost(space, w.drop_last()), space.spec_distance(w[w.len() - 2], w.last()))
    }
}

/// `rset` is a finite bound on the reachable part of the space, small enough
/// to count in `u32`.
pub open spec fn bounds_reachable<S: Space>(space: S, rset: Set<S::T>) -> bool {
    &&& rset.finite()
    &&& rset.len() <= u32::MAX
    &&& forall|t: S::T| #[trigger] reachable(space, t) ==> rset.contains(t)
}

/// The reachable part of the space is finite (and countable in `u32`).
pub open spec fn finitely_reachable<S: Space>(space: S) -> bool {
    exists|rset: Set<S::T>| #[trigger] bounds_reachable(space, rset)
}

/// An explored node: a state together with the accumulated cost of the path
/// that reached it, the heuristic estimate of the remaining cost, and a shared
/// link to the node it was expanded from.  Parent links form a backward tree
/// rooted at the start state.
pub struct Node<T> {
    pub g_score: u32,
    pub h_score: u32,
    pub state: Rc<T>,
    pub parent: Option<Rc<Node<T>>>,
}

/// The states a sequence of shared references points at.
pub open spec fn states_of<T>(p: Seq<Rc<T>>) -> Seq<T> {
    p.map_values(|s: Rc<T>| *s)
}

/// The chain of the node a shared reference points at.
pub open spec fn chain_of<T>(p: Rc<Node<T>>) -> Seq<T> {
    (*p).chain()
}

/// The state a node carries.
pub open spec fn state_of<T>(n: Node<T>) -> T {
    *n.state
}

impl<T> Node<T> {
    /// The start-to-here sequence of states along the parent chain.
    pub open spec fn chain(self) -> Seq<T>
        decreases self,
    {
        match self.parent {
            None => seq![*self.state],
            Some(p) => (*p).chain().push(*self.state),
        }
    }

    /// The engine's per-node invariant, relative to a space: the parent chain
    /// is a walk ending in this node's state, `g_score` is that walk's cost,
    /// and `h_score` is the state's heuristic estimate.
    pub open spec fn valid<S: Space<T = T>>(self, space: S) -> bool {
        &&& is_walk(space, self.chain())
        &&& self.chain().last() == *self.state
        &&& self.g_score == walk_cost(space, self.chain())
        &&& self.h_score == space.spec_heuristic(*self.state)
    }

    /// The frontier ordering key: accumulated cost plus heuristic estimate,
    /// saturating at `u32::MAX`.
    pub open spec fn spec_estimated_cost(self) -> u32 {
        sat_add(self.g_score, self.h_score)
    }

    pub fn estimated_cost(&self) -> (r: u32)
        ensures
            r == self.spec_estimated_cost(),
    {
        if self.g_score > u32::MAX - self.h_score {
            u32::MAX
        } else {
            self.g_score + self.h_score
        }
    }

    /// The root node of a search: the start state, no accumulated cost, no
    /// parent.
    pub fn from_start(state: T, h_score: u32) -> (n: Node<T>)
        ensures
            n.g_score == 0,
            n.h_score == h_score,
            *n.state == state,
            n.parent is None,
            n.chain() == seq![state],
    {
        Node { g_score: 0, h_score, state: Rc::new(state), parent: None }
    }

    /// Walk the parent chain back to the root, collecting each node's state,
    /// and reverse the collection into start-to-here order.
    pub fn backtrace(&self) -> (r: Vec<Rc<T>>)
        ensures
            states_of(r@) == self.chain(),
    {
        let mut collected: Vec<Rc<T>> = Vec::new();
        collected.push(self.state.clone());
        let mut node: &Node<T> = self;
        proof {
            assert(states_of(collected@) =~= seq![*self.state]);
            assert(self.chain() =~= node.chain().drop_last() + states_of(collected@).reverse());
        }
        loop
            invariant
                collected@.len() >= 1,
                self.chain() == node.chain().drop_last() + states_of(collected@).reverse(),
                states_of(collected@).last() == *node.state,
            ensures
                self.chain() == states_of(collected@).reverse(),
            decreases node.chain().len(),
        {
            match node.parent {
                Some(ref p) => {
                    collected.push(p.state.clone());
                    proof {
                        let prev = collected@.drop_last();
                        assert(states_of(collected@) =~= states_of(prev).push(*p.state));
                        assert(states_of(collected@).reverse() =~= seq![*p.state] + states_of(
                            prev,
                        ).reverse());
                        assert((*p).chain().drop_last() + states_of(collected@).reverse() =~= (
                        *p).chain().drop_last().push(*p.state) + states_of(prev).reverse());
                        assert((*p).chain().drop_last().push(*p.state) =~= (*p).chain());
                        assert(node.chain().drop_last() == (*p).chain());
                    }
                    node = &**p;
                },
                None => {
                    proof {
                        assert(node.chain() =~= seq![*node.state]);
                        assert(self.chain() =~= states_of(collected@).reverse());
                    }
                    break ;
                },
            }
        }
        let mut r: Vec<Rc<T>> = Vec::new();
        let mut i: usize = collected.len();
        while i > 0
            invariant
                i <= collected@.len(),
                states_of(r@) == states_of(collected@).reverse().take(
                    collected@.len() - i,
                ),
            decreases i,
        {
            i = i - 1;
            r.push(collected[i].clone());
            proof {
                let done = collected@.len() - i;
                assert(states_of(r@) =~= states_of(r@.drop_last()).push(*collected@[i as int]));
                assert(states_of(collected@).reverse()[done - 1] == states_of(collected@)[i as int]);
                assert(states_of(collected@).reverse().take(done) =~= states_of(
                    collected@,
                ).reverse().take(done - 1).push(states_of(collected@).reverse()[done - 1]));
            }
        }
        proof {
            assert(states_of(r@) =~= states_of(collected@).reverse());
        }
        r
    }
}

/// The open list: pending nodes, ordered for extraction by minimum estimated
/// cost.  Duplicate entries for one state are tolerated; the engine discards
/// them lazily when they are popped.
pub struct Frontier<T> {
    nodes: Vec<Node<T>>,
}

impl<T> View for Frontier<T> {
    type V = Seq<Node<T>>;

    closed spec fn view(&self) -> Seq<Node<T>> {
        self.nodes@
    }
}

/// Whether some pending node of `open` carries the state `t`.
pub open spec fn open_has_state<T>(open: Seq<Node<T>>, t: T) -> bool {
    exists|k: int| 0 <= k < open.len() && *(#[trigger] open[k]).state == t
}

impl<T> Frontier<T> {
    pub fn new() -> (f: Frontier<T>)
        ensures
            f@ == Seq::<Node<T>>::empty(),
    {
        Frontier { nodes: Vec::new() }
    }

    pub fn len(&self) -> (n: usize)
        ensures
            n == self@.len(),
    {
        self.nodes.len()
    }

    pub fn push(&mut self, n: Node<T>)
        ensures
            final(self)@ == old(self)@.push(n),
    {
        self.nodes.push(n);
    }

    /// Remove and return a node of minimum estimated cost; `None` when the
    /// frontier is empty.  Among tied nodes the choice is unspecified.
    pub fn pop_min(&mut self) -> (r: Option<Node<T>>)
        ensures
            match r {
                None => old(self)@.len() == 0 && final(self)@ == old(self)@,
                Some(n) => {
                    &&& old(self)@.len() > 0
                    &&& exists|i: int|
                        #![trigger old(self)@.remove(i)]
                        0 <= i < old(self)@.len() && n == old(self)@[i] && final(self)@ == old(
                            self,
                        )@.remove(i)
                    &&& forall|j: int|
                        0 <= j < old(self)@.len() ==> n.spec_estimated_cost() <= (
                        #[trigger] old(self)@[j]).spec_estimated_cost()
                },
            },
    {
        if self.nodes.len() == 0 {
            return None;
        }
        let ghost pre = self.nodes@;
        let mut best: usize = 0;
        let mut best_cost: u32 = self.nodes[0].estimated_cost();
        let mut i: usize = 1;
        while i < self.nodes.len()
            invariant
                self.nodes@ == pre,
                best < i <= pre.len(),
                best_cost == pre[best as int].spec_estimated_cost(),
                forall|j: int|
                    0 <= j < i ==> best_cost <= (#[trigger] pre[j]).spec_estimated_cost(),
            decreases pre.len() - i,
        {
            let c = self.nodes[i].estimated_cost();
            if c < best_cost {
                best = i;
                best_cost = c;
            }
            i = i + 1;
        }
        let n = self.nodes.remove(best);
        proof {
            assert(n == old(self)@[best as int]);
            assert(self@ == old(self)@.remove(best as int));
        }
        Some(n)
    }
}

/// The closed list: states that have already been expanded, each recorded
/// exactly once.
pub struct VisitedSet<T> {
    states: Vec<Rc<T>>,
}

impl<T> View for VisitedSet<T> {
    type V = Seq<T>;

    closed spec fn view(&self) -> Seq<T> {
        states_of(self.states@)
    }
}

impl<T: Eq> VisitedSet<T> {
    pub fn new() -> (v: VisitedSet<T>)
        ensures
            v@ == Seq::<T>::empty(),
    {
        let v = VisitedSet { states: Vec::new() };
        proof {
            assert(v@ =~= Seq::<T>::empty());
        }
        v
    }

    pub fn len(&self) -> (n: usize)
        ensures
            n == self@.len(),
    {
        self.states.len()
    }

    /// Whether `t` has already been expanded.
    pub fn contains(&self, t: &T) -> (r: bool)
        requires
            state_eq_obeyed::<T>(),
        ensures
            r == self@.contains(*t),
    {
        let mut i: usize = 0;
        while i < self.states.len()
            invariant
                state_eq_obeyed::<T>(),
                i <= self.states@.len(),
                forall|j: int| 0 <= j < i ==> self@[j] != *t,
            decreases self.states@.len() - i,
        {
            if *self.states[i] == *t {
                proof {
                    assert(self@[i as int] == *t);
                }
                return true;
            }
            i = i + 1;
        }
        proof {
            assert(forall|j: int| 0 <= j < self@.len() ==> self@[j] != *t);
        }
        false
    }

    /// Record `t` as expanded.
    pub fn insert(&mut self, t: Rc<T>)
        ensures
            final(self)@ == old(self)@.push(*t),
    {
        self.states.push(t);
        proof {
            assert(final(self)@ =~= old(self)@.push(*t));
        }
    }
}

/// A node is grounded in the closed list when its chain revisits no state and
/// every state on it except possibly the last has already been expanded.
pub open spec fn grounded<T>(closed: Seq<T>, n: Node<T>) -> bool {
    &&& n.chain().no_duplicates()
    &&& forall|i: int| 0 <= i < n.chain().len() - 1 ==> closed.contains(#[trigger] n.chain()[i])
}

/// Every successor of an expanded state has been expanded itself or still
/// waits on the frontier.
pub open spec fn expansion_closed<S: Space<T = T>, T>(
    space: S,
    closed: Seq<T>,
    open: Seq<Node<T>>,
) -> bool {
    forall|u: T, v: T|
        #![trigger closed.contains(u), space.spec_expand(u).contains(v)]
        closed.contains(u) && space.spec_expand(u).contains(v) ==> closed.contains(v)
            || open_has_state(open, v)
}

/// `vs` is a set of distinct reachable non-goal states counted by `count`.
pub open spec fn expansion_evidence<S: Space<T = T>, T>(
    space: S,
    vs: Set<T>,
    count: u32,
) -> bool {
    &&& vs.finite()
    &&& vs.len() == count
    &&& forall|t: T| #[trigger] vs.contains(t) ==> reachable(space, t) && !space.spec_is_goal(t)
}

proof fn lemma_contains_push<T>(s: Seq<T>, x: T, y: T)
    requires
        s.contains(y),
    ensures
        s.push(x).contains(y),
{
    let j = choose|j: int| 0 <= j < s.len() && s[j] == y;
    assert(s.push(x)[j] == y);
}

proof fn lemma_open_state_push<T>(open: Seq<Node<T>>, n: Node<T>, t: T)
    requires
        open_has_state(open, t),
    ensures
        open_has_state(open.push(n), t),
{
    let k = choose|k: int| 0 <= k < open.len() && *open[k].state == t;
    assert(*open.push(n)[k].state == t);
}

proof fn lemma_open_state_remove<T>(open: Seq<Node<T>>, i: int, t: T)
    requires
        0 <= i < open.len(),
        open_has_state(open, t),
    ensures
        *open[i].state == t || open_has_state(open.remove(i), t),
{
    let k = choose|k: int| 0 <= k < open.len() && *open[k].state == t;
    if k < i {
        assert(open.remove(i)[k] == open[k]);
    } else if k > i {
        assert(open.remove(i)[k - 1] == open[k]);
    }
}

/// When the closed list contains the start state and is closed under
/// expansion, it contains the end of every walk.
proof fn lemma_walks_stay_closed<S: Space<T = T>, T>(space: S, closed: Seq<T>, w: Seq<T>)
    requires
        closed.contains(space.spec_start()),
        forall|u: T, v: T|
            #![trigger closed.contains(u), space.spec_expand(u).contains(v)]
            closed.contains(u) && space.spec_expand(u).contains(v) ==> closed.contains(v),
        is_walk(space, w),
    ensures
        closed.contains(w.last()),
    decreases w.len(),
{
    if w.len() == 1 {
        assert(w.last() == w[0]);
    } else {
        let w0 = w.drop_last();
        assert(is_walk(space, w0)) by {
            assert(w0[0] == w[0]);
            assert forall|i: int| 0 <= i < w0.len() - 1 implies #[trigger] space.spec_expand(
                w0[i],
            ).contains(w0[i + 1]) by {
                assert(w0[i] == w[i]);
                assert(w0[i + 1] == w[i + 1]);
                assert(space.spec_expand(w[i]).contains(w[i + 1]));
            }
        }
        lemma_walks_stay_closed(space, closed, w0);
        assert(closed.contains(w[w.len() - 2]));
        let i = w.len() - 2;
        assert(space.spec_expand(w[i]).contains(w[i + 1]));
        assert(w.last() == w[i + 1]);
    }
}

/// Build a child node for each successor that is not yet expanded and push it
/// onto the frontier; afterwards every successor is either expanded or
/// pending.
#[verifier::loop_isolation(false)]
fn push_successors<S: Space<T = T>, T: Eq>(
    space: &S,
    parent: Rc<Node<T>>,
    succs: Vec<T>,
    open: &mut Frontier<T>,
    closed: &VisitedSet<T>,
)
    requires
        space.inv(),
        state_eq_obeyed::<T>(),
        (*parent).valid(*space),
        (*parent).chain().no_duplicates(),
        forall|i: int|
            0 <= i < (*parent).chain().len() ==> closed@.contains(#[trigger] (*parent).chain()[i]),
        succs@ == space.spec_expand(*(*parent).state),
        forall|k: int| 0 <= k < old(open)@.len() ==> (#[trigger] old(open)@[k]).valid(*space),
        forall|k: int| 0 <= k < old(open)@.len() ==> grounded(closed@, #[trigger] old(open)@[k]),
    ensures
        final(open)@.len() >= old(open)@.len(),
        forall|k: int| 0 <= k < old(open)@.len() ==> final(open)@[k] == old(open)@[k],
        forall|k: int| 0 <= k < final(open)@.len() ==> (#[trigger] final(open)@[k]).valid(*space),
        forall|k: int|
            0 <= k < final(open)@.len() ==> grounded(closed@, #[trigger] final(open)@[k]),
        forall|j: int|
            0 <= j < succs@.len() ==> closed@.contains(#[trigger] succs@[j]) || open_has_state(
                final(open)@,
                succs@[j],
            ),
{
    let ghost all = succs@;
    let mut rest = succs;
    while rest.len() > 0
        invariant
            rest@.len() <= all.len(),
            rest@ == all.take(rest@.len() as int),
            open@.len() >= old(open)@.len(),
            forall|k: int| 0 <= k < old(open)@.len() ==> open@[k] == old(open)@[k],
            forall|k: int| 0 <= k < open@.len() ==> (#[trigger] open@[k]).valid(*space),
            forall|k: int| 0 <= k < open@.len() ==> grounded(closed@, #[trigger] open@[k]),
            forall|j: int|
                rest@.len() <= j < all.len() ==> closed@.contains(#[trigger] all[j])
                    || open_has_state(open@, all[j]),
        decreases rest@.len(),
    {
        let ghost rest0 = rest@;
        let ghost open0 = open@;
        let s_opt = rest.pop();
        let s = s_opt.unwrap();
        proof {
            let n0 = rest0.len() as int;
            assert(n0 > 0);
            assert(rest0 == all.take(n0));
            assert(s == rest0[n0 - 1]);
            assert(all.take(n0)[n0 - 1] == all[n0 - 1]);
            assert(s == all[n0 - 1]);
            assert(rest@ == rest0.subrange(0, n0 - 1));
            assert forall|k: int| 0 <= k < n0 - 1 implies rest@[k] == all[k] by {
                assert(rest@[k] == rest0[k]);
                assert(all.take(n0)[k] == all[k]);
            }
            assert(rest@ =~= all.take(n0 - 1));
            assert(s == all[rest@.len() as int]);
        }
        if !closed.contains(&s) {
            let h = space.heuristic(&s);
            let d = space.distance(&parent.state, &s);
            let g = if parent.g_score > u32::MAX - d {
                u32::MAX
            } else {
                parent.g_score + d
            };
            let child = Node {
                g_score: g,
                h_score: h,
                state: Rc::new(s),
                parent: Some(parent.clone()),
            };
            proof {
                let pc = chain_of(parent);
                let cc = child.chain();
                assert(cc == pc.push(*child.state));
                assert(*child.state == all[rest@.len() as int]);
                assert(g == sat_add((*parent).g_score, d));
                // The chain extended by one successor is again a walk.
                assert(cc[0] == pc[0]);
                assert(is_walk(*space, cc)) by {
                    assert forall|i: int| 0 <= i < cc.len() - 1 implies #[trigger] space
                        .spec_expand(cc[i]).contains(cc[i + 1]) by {
                        if i < pc.len() - 1 {
                            assert(cc[i] == pc[i]);
                            assert(cc[i + 1] == pc[i + 1]);
                            assert(space.spec_expand(pc[i]).contains(pc[i + 1]));
                        } else {
                            assert(cc[i] == pc.last());
                            assert(pc.last() == *(*parent).state);
                            assert(space.spec_expand(*(*parent).state)[rest@.len() as int]
                                == *child.state);
                        }
                    }
                }
                // Its cost is the parent's cost plus the edge just taken.
                assert(cc.drop_last() =~= pc);
                assert(cc[cc.len() - 2] == pc.last());
                assert(walk_cost(*space, cc) == sat_add(
                    walk_cost(*space, pc),
                    space.spec_distance(*(*parent).state, *child.state),
                ));
                assert(child.valid(*space));
                // The successor was not expanded, so the new chain repeats
                // no state and stays grounded.
                assert(grounded(closed@, child)) by {
                    assert(forall|i: int|
                        0 <= i < pc.len() ==> closed@.contains(#[trigger] pc[i]));
                    assert(!closed@.contains(*child.state));
                    assert forall|i: int, j: int|
                        0 <= i < cc.len() && 0 <= j < cc.len() && i != j implies cc[i] != cc[
                    j] by {
                        if i < pc.len() && j < pc.len() {
                            assert(pc[i] != pc[j]);
                        } else if i < pc.len() {
                            assert(closed@.contains(pc[i]));
                        } else if j < pc.len() {
                            assert(closed@.contains(pc[j]));
                        }
                    }
                    assert(forall|i: int|
                        0 <= i < cc.len() - 1 ==> closed@.contains(#[trigger] cc[i]));
                }
            }
            open.push(child);
            proof {
                assert(open@ == open0.push(child));
                assert(*open@[open@.len() - 1].state == s);
                assert(open_has_state(open@, s));
                assert forall|j: int|
                    rest@.len() <= j < all.len() implies closed@.contains(#[trigger] all[j])
                        || open_has_state(open@, all[j]) by {
                    if j == rest@.len() {
                        assert(open_has_state(open@, all[j]));
                    } else if !closed@.contains(all[j]) {
                        assert(open_has_state(open0, all[j]));
                        lemma_open_state_push(open0, child, all[j]);
                    }
                }
            }
        } else {
            proof {
                assert(closed@.contains(s));
                assert forall|j: int|
                    rest@.len() <= j < all.len() implies closed@.contains(#[trigger] all[j])
                        || open_has_state(open@, all[j]) by {}
            }
        }
    }
}

/// Produced on success: the reconstructed start-to-goal path, the path's total
/// cost, and the number of distinct states that were expanded on the way.
pub struct SearchResult<T> {
    pub path: Vec<Rc<T>>,
    pub cost: u32,
    pub expansion_count: u32,
}

proof fn lemma_open_state_extend<T>(a: Seq<Node<T>>, b: Seq<Node<T>>, t: T)
    requires
        b.len() >= a.len(),
        forall|k: int| 0 <= k < a.len() ==> b[k] == a[k],
        open_has_state(a, t),
    ensures
        open_has_state(b, t),
{
    let k = choose|k: int| 0 <= k < a.len() && *a[k].state == t;
    assert(*b[k].state == t);
}

/// A duplicate-free sequence of members of a finite set is no longer than the
/// set is large.
proof fn lemma_distinct_members_bound<T>(s: Seq<T>, rset: Set<T>)
    requires
        s.no_duplicates(),
        rset.finite(),
        forall|k: int| 0 <= k < s.len() ==> rset.contains(#[trigger] s[k]),
    ensures
        s.len() <= rset.len(),
        s.to_set().finite(),
        s.to_set().len() == s.len(),
{
    s.unique_seq_to_set();
    seq_to_set_is_finite(s);
    assert(s.to_set().subset_of(rset)) by {
        assert forall|x: T| s.to_set().contains(x) implies rset.contains(x) by {
            assert(s.contains(x));
            let j = choose|j: int| 0 <= j < s.len() && s[j] == x;
            assert(rset.contains(s[j]));
        }
    }
    lemma_len_subset(s.to_set(), rset);
}

/// Find a minimum-cost path from the start state of `space` to a goal state.
///
/// The search expands states in order of estimated total cost, never expands
/// a state twice, and reconstructs the path by walking parent links back from
/// the goal node.  It returns a result exactly when some goal state is
/// reachable; the result's path is a duplicate-free walk from the start state
/// to a goal state whose saturating edge-cost sum is the reported cost.
/// Termination is proved, so the reachable part of the space must be finite.
#[verifier::loop_isolation(false)]
pub fn search<S: Space<T = T>, T: Eq>(space: &S) -> (r: Option<SearchResult<T>>)
    requires
        space.inv(),
        state_eq_obeyed::<T>(),
        finitely_reachable(*space),
    ensures
        (r is Some) <==> (exists|t: T| #[trigger] reachable(*space, t) && space.spec_is_goal(t)),
        r matches Some(res) ==> {
            &&& states_of(res.path@).len() >= 1
            &&& is_walk(*space, states_of(res.path@))
            &&& states_of(res.path@)[0] == space.spec_start()
            &&& space.spec_is_goal(states_of(res.path@).last())
            &&& res.cost == walk_cost(*space, states_of(res.path@))
            &&& states_of(res.path@).no_duplicates()
            &&& states_of(res.path@).len() <= res.expansion_count + 1
            &&& exists|vs: Set<T>| #[trigger] expansion_evidence(*space, vs, res.expansion_count)
        },
        r is None ==> (forall|t: T| #[trigger] reachable(*space, t) ==> !space.spec_is_goal(t)),
        space.spec_is_goal(space.spec_start()) ==> (r matches Some(res) && res.cost == 0
            && res.expansion_count == 0 && states_of(res.path@) == seq![space.spec_start()]),
{
    let ghost rset = choose|rs: Set<T>| bounds_reachable(*space, rs);
    let mut open: Frontier<T> = Frontier::new();
    let mut closed: VisitedSet<T> = VisitedSet::new();
    let start_state = space.start();
    let h0 = space.heuristic(&start_state);
    let root = Node::from_start(start_state, h0);
    proof {
        assert(root.chain() == seq![space.spec_start()]);
        assert(root.valid(*space)) by {
            assert(root.chain()[0] == space.spec_start());
            assert(root.chain().last() == *root.state);
            assert(walk_cost(*space, root.chain()) == 0);
        }
        assert(grounded(closed@, root)) by {
            assert(root.chain().no_duplicates());
        }
    }
    open.push(root);
    proof {
        assert(*open@[0].state == space.spec_start());
        assert(open_has_state(open@, space.spec_start()));
        assert(expansion_closed(*space, closed@, open@)) by {
            assert(forall|u: T| !closed@.contains(u));
        }
    }
    loop
        invariant
            forall|k: int| 0 <= k < open@.len() ==> (#[trigger] open@[k]).valid(*space),
            forall|k: int| 0 <= k < open@.len() ==> grounded(closed@, #[trigger] open@[k]),
            closed@.no_duplicates(),
            closed@.len() <= rset.len(),
            forall|k: int| 0 <= k < closed@.len() ==> rset.contains(#[trigger] closed@[k]),
            forall|k: int| 0 <= k < closed@.len() ==> reachable(*space, #[trigger] closed@[k]),
            forall|k: int| 0 <= k < closed@.len() ==> !space.spec_is_goal(#[trigger] closed@[k]),
            closed@.contains(space.spec_start()) || open_has_state(open@, space.spec_start()),
            expansion_closed(*space, closed@, open@),
            space.spec_is_goal(space.spec_start()) ==> closed@.len() == 0 && forall|k: int|
                0 <= k < open@.len() ==> (#[trigger] open@[k]).chain() == seq![
                    space.spec_start(),
                ] && open@[k].g_score == 0,
        decreases rset.len() - closed@.len(), open@.len(),
    {
        let ghost open0 = open@;
        match open.pop_min() {
            None => {
                proof {
                    assert(open0.len() == 0);
                    if !closed@.contains(space.spec_start()) {
                        assert(open_has_state(open0, space.spec_start()));
                        assert(false);
                    }
                    assert forall|u: T, v: T|
                        #![trigger closed@.contains(u), space.spec_expand(u).contains(v)]
                        closed@.contains(u) && space.spec_expand(u).contains(v) implies closed@
                        .contains(v) by {
                        if !closed@.contains(v) {
                            assert(open_has_state(open0, v));
                            assert(false);
                        }
                    }
                    assert forall|t: T| #[trigger] reachable(*space, t) implies !space
                        .spec_is_goal(t) by {
                        let w = choose|w: Seq<T>| is_walk(*space, w) && w.last() == t;
                        lemma_walks_stay_closed(*space, closed@, w);
                        let j = choose|j: int| 0 <= j < closed@.len() && closed@[j] == t;
                        assert(!space.spec_is_goal(closed@[j]));
                    }
                }
                return None;
            },
            Some(node) => {
                let ghost i = choose|j: int|
                    0 <= j < open0.len() && node == open0[j] && open@ == open0.remove(j);
                proof {
                    assert(node.valid(*space));
                    assert(grounded(closed@, node));
                    assert(open@.len() == open0.len() - 1);
                    assert forall|k: int| 0 <= k < open@.len() implies (#[trigger] open@[k]).valid(
                        *space,
                    ) && grounded(closed@, open@[k]) by {
                        if k < i {
                            assert(open@[k] == open0[k]);
                        } else {
                            assert(open@[k] == open0[k + 1]);
                        }
                    }
                }
                if closed.contains(&*node.state) {
                    // A duplicate frontier entry for an already-expanded
                    // state: discard it without side effects.
                    proof {
                        if !closed@.contains(space.spec_start()) {
                            assert(open_has_state(open0, space.spec_start()));
                            lemma_open_state_remove(open0, i, space.spec_start());
                        }
                        assert forall|u: T, v: T|
                            #![trigger closed@.contains(u), space.spec_expand(u).contains(v)]
                            closed@.contains(u) && space.spec_expand(u).contains(v) implies closed@
                            .contains(v) || open_has_state(open@, v) by {
                            if !closed@.contains(v) {
                                assert(open_has_state(open0, v));
                                lemma_open_state_remove(open0, i, v);
                                if state_of(open0[i]) == v {
                                    assert(closed@.contains(v));
                                }
                            }
                        }
                    }
                } else if space.is_goal(&*node.state) {
                    // Terminal success: reconstruct the path and report the
                    // node's accumulated cost and the number of expansions.
                    let path = node.backtrace();
                    let count = closed.len();
                    proof {
                        lemma_distinct_members_bound(closed@, rset);
                        assert(count as u32 == closed@.len());
                        assert(expansion_evidence(*space, closed@.to_set(), count as u32)) by {
                            assert forall|t: T| #[trigger] closed@.to_set().contains(t) implies
                                reachable(*space, t) && !space.spec_is_goal(t) by {
                                assert(closed@.contains(t));
                                let j = choose|j: int| 0 <= j < closed@.len() && closed@[j] == t;
                                assert(reachable(*space, closed@[j]));
                                assert(!space.spec_is_goal(closed@[j]));
                            }
                        }
                        let ch = node.chain();
                        assert(is_walk(*space, ch));
                        assert(ch.last() == *node.state);
                        assert(reachable(*space, *node.state));
                        // All of the path but its goal end was expanded, so
                        // the path cannot outgrow the expansion count.
                        let dl = ch.drop_last();
                        assert(dl.no_duplicates()) by {
                            assert forall|a: int, b: int|
                                0 <= a < dl.len() && 0 <= b < dl.len() && a != b implies dl[a]
                                != dl[b] by {
                                assert(dl[a] == ch[a]);
                                assert(dl[b] == ch[b]);
                            }
                        }
                        dl.unique_seq_to_set();
                        seq_to_set_is_finite(dl);
                        assert(dl.to_set().subset_of(closed@.to_set())) by {
                            assert forall|x: T| dl.to_set().contains(x) implies closed@
                                .to_set().contains(x) by {
                                assert(dl.contains(x));
                                let j = choose|j: int| 0 <= j < dl.len() && dl[j] == x;
                                assert(ch[j] == x);
                                assert(closed@.contains(ch[j]));
                            }
                        }
                        lemma_len_subset(dl.to_set(), closed@.to_set());
                        assert(ch.len() <= count + 1);
                        if space.spec_is_goal(space.spec_start()) {
                            assert(node.chain() == seq![space.spec_start()]);
                            assert(node.g_score == 0);
                            assert(count == 0);
                        }
                    }
                    return Some(
                        SearchResult { path, cost: node.g_score, expansion_count: count as u32 },
                    );
                } else {
                    // Commit the state as expanded, then push a child node
                    // for every successor that is not expanded yet.
                    proof {
                        if space.spec_is_goal(space.spec_start()) {
                            assert(node.chain() == seq![space.spec_start()]);
                            assert(node.chain().last() == *node.state);
                            assert(false);
                        }
                    }
                    let succs = space.expand(&*node.state);
                    let ghost closed0 = closed@;
                    closed.insert(node.state.clone());
                    proof {
                        assert(closed@ == closed0.push(*node.state));
                        assert(closed@.no_duplicates()) by {
                            assert(!closed0.contains(*node.state));
                            assert forall|a: int, b: int|
                                0 <= a < closed@.len() && 0 <= b < closed@.len() && a != b implies
                                closed@[a] != closed@[b] by {
                                if a < closed0.len() && b < closed0.len() {
                                    assert(closed0[a] != closed0[b]);
                                } else if a < closed0.len() {
                                    assert(!closed0.contains(closed@[b]));
                                    assert(closed0[a] == closed@[a]);
                                } else if b < closed0.len() {
                                    assert(!closed0.contains(closed@[a]));
                                    assert(closed0[b] == closed@[b]);
                                }
                            }
                        }
                        assert(reachable(*space, *node.state)) by {
                            assert(is_walk(*space, node.chain()));
                            assert(node.chain().last() == *node.state);
                        }
                        assert(rset.contains(*node.state));
                        assert forall|k: int| 0 <= k < closed@.len() implies rset.contains(
                            #[trigger] closed@[k],
                        ) && reachable(*space, closed@[k]) && !space.spec_is_goal(
                            closed@[k],
                        ) by {
                            if k < closed0.len() {
                                assert(closed@[k] == closed0[k]);
                            } else {
                                assert(closed@[k] == *node.state);
                            }
                        }
                        lemma_distinct_members_bound(closed@, rset);
                        // The popped node's whole chain is now expanded.
                        assert forall|ii: int| 0 <= ii < node.chain().len() implies closed@
                            .contains(#[trigger] node.chain()[ii]) by {
                            if ii < node.chain().len() - 1 {
                                assert(closed0.contains(node.chain()[ii]));
                                lemma_contains_push(closed0, *node.state, node.chain()[ii]);
                            } else {
                                assert(node.chain()[ii] == *node.state);
                                assert(closed@[closed0.len() as int] == *node.state);
                            }
                        }
                        // Grounding survives the growth of the closed list.
                        assert forall|k: int| 0 <= k < open@.len() implies grounded(
                            closed@,
                            #[trigger] open@[k],
                        ) by {
                            assert(grounded(closed0, open@[k]));
                            assert forall|ii: int|
                                0 <= ii < open@[k].chain().len() - 1 implies closed@.contains(
                                #[trigger] open@[k].chain()[ii],
                            ) by {
                                assert(closed0.contains(open@[k].chain()[ii]));
                                lemma_contains_push(closed0, *node.state, open@[k].chain()[ii]);
                            }
                        }
                    }
                    let ghost open1 = open@;
                    let parent = Rc::new(node);
                    push_successors(space, parent, succs, &mut open, &closed);
                    proof {
                        // The start state is still accounted for.
                        if !closed@.contains(space.spec_start()) {
                            if closed0.contains(space.spec_start()) {
                                lemma_contains_push(closed0, state_of(open0[i]), space.spec_start());
                                assert(false);
                            }
                            assert(open_has_state(open0, space.spec_start()));
                            lemma_open_state_remove(open0, i, space.spec_start());
                            if state_of(open0[i]) == space.spec_start() {
                                assert(closed@[closed0.len() as int] == space.spec_start());
                                assert(false);
                            }
                            lemma_open_state_extend(open1, open@, space.spec_start());
                        }
                        // Every successor of an expanded state is expanded or
                        // still pending.
                        assert forall|u: T, v: T|
                            #![trigger closed@.contains(u), space.spec_expand(u).contains(v)]
                            closed@.contains(u) && space.spec_expand(u).contains(v) implies closed@
                            .contains(v) || open_has_state(open@, v) by {
                            let ui = choose|ui: int| 0 <= ui < closed@.len() && closed@[ui] == u;
                            if ui < closed0.len() {
                                assert(closed0.contains(closed0[ui]));
                                assert(closed0.contains(u) && space.spec_expand(u).contains(v));
                                if !closed0.contains(v) {
                                    assert(open_has_state(open0, v));
                                    lemma_open_state_remove(open0, i, v);
                                    if state_of(open0[i]) == v {
                                        assert(closed@[closed0.len() as int] == v);
                                    } else {
                                        lemma_open_state_extend(open1, open@, v);
                                    }
                                } else {
                                    lemma_contains_push(closed0, state_of(open0[i]), v);
                                }
                            } else {
                                assert(u == *open0[i].state);
                                let vj = choose|vj: int|
                                    0 <= vj < space.spec_expand(u).len() && space.spec_expand(
                                        u,
                                    )[vj] == v;
                                assert(succs@[vj] == v);
                            }
                        }
                    }
                }
            },
        }
    }
}

/// Law: the number of states the engine expands never exceeds the number of
/// distinct reachable states.  Whenever an expansion count is witnessed by a
/// set of distinct reachable states, any finite set covering the reachable
/// states is at least that large.
pub proof fn lemma_expansion_count_bound<S: Space<T = T>, T>(
    space: S,
    count: u32,
    rset: Set<T>,
)
    requires
        exists|vs: Set<T>| #[trigger] expansion_evidence(space, vs, count),
        rset.finite(),
        forall|t: T| #[trigger] reachable(space, t) ==> rset.contains(t),
    ensures
        count <= rset.len(),
{
    let vs = choose|vs: Set<T>| expansion_evidence(space, vs, count);
    assert(vs.subset_of(rset)) by {
        assert forall|t: T| vs.contains(t) implies rset.contains(t) by {
            assert(reachable(space, t));
        }
    }
    lemma_len_subset(vs, rset);
}

} // verus!
