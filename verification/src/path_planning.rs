use vstd::prelude::*;
use vstd::multiset::Multiset;

use crate::grid_map::{
    adjacent, lemma_neighbors_complete, lemma_neighbors_sound, lemma_row_major_in_range,
    lemma_row_major_injective, manhattan, GridMap, GridModel, GridPosition,
};

verus! {

broadcast use {vstd::seq_lib::group_to_multiset_ensures, vstd::multiset::group_multiset_axioms};

/// Why a plan could not be made.
#[derive(Debug, Clone, Copy, PartialEq, Eq, Structural)]
pub enum PathPlanningError {
    StartOutOfBounds,
    GoalOutOfBounds,
    StartBlocked,
    GoalBlocked,
    NoPathFound,
}

// ------------------------------------------------------------------------------------------
// Paths
// ------------------------------------------------------------------------------------------

/// Cells `i` and `i + 1` of `path` share a side.
pub open spec fn step_is_adjacent(path: Seq<GridPosition>, i: int) -> bool {
    adjacent(path[i], path[i + 1])
}

/// A non-empty sequence of open cells in which each cell shares a side with the next.
pub open spec fn is_walk(m: GridModel, path: Seq<GridPosition>) -> bool {
    &&& path.len() >= 1
    &&& forall|i: int| 0 <= i < path.len() ==> m.is_open(#[trigger] path[i])
    &&& forall|i: int| 0 <= i < path.len() - 1 ==> #[trigger] step_is_adjacent(path, i)
}

/// A walk that begins at `start` and ends at `goal`.
pub open spec fn is_path_between(
    m: GridModel,
    path: Seq<GridPosition>,
    start: GridPosition,
    goal: GridPosition,
) -> bool {
    &&& is_walk(m, path)
    &&& path[0] == start
    &&& path.last() == goal
}

/// Some walk leads from `start` to `goal`.
pub open spec fn reachable(m: GridModel, start: GridPosition, goal: GridPosition) -> bool {
    exists|path: Seq<GridPosition>| is_path_between(m, path, start, goal)
}

/// A walk from `start` to `goal` with no more cells than any other such walk.
pub open spec fn is_shortest_path(
    m: GridModel,
    path: Seq<GridPosition>,
    start: GridPosition,
    goal: GridPosition,
) -> bool {
    &&& is_path_between(m, path, start, goal)
    &&& forall|other: Seq<GridPosition>|
        is_path_between(m, other, start, goal) ==> path.len() <= #[trigger] other.len()
}

// ------------------------------------------------------------------------------------------
// Heuristic
// ------------------------------------------------------------------------------------------

/// The Manhattan distance between two cells.
pub fn heuristic(from: GridPosition, to: GridPosition) -> (r: usize)
    requires
        manhattan(from, to) <= usize::MAX,
    ensures
        r == manhattan(from, to),
{
    let dx: usize = if from.x >= to.x { from.x - to.x } else { to.x - from.x };
    let dy: usize = if from.y >= to.y { from.y - to.y } else { to.y - from.y };
    dx + dy
}

// ------------------------------------------------------------------------------------------
// Position maps
// ------------------------------------------------------------------------------------------

/// A map from the cells of a `width` by `height` grid to values, one slot per cell.
pub struct PositionMap<V> {
    width: usize,
    height: usize,
    slots: Vec<Option<V>>,
}

/// Number of filled slots.
pub open spec fn filled_count<V>(s: Seq<Option<V>>) -> nat
    decreases s.len(),
{
    if s.len() == 0 {
        0
    } else {
        filled_count(s.drop_last()) + if s.last() is Some {
            1nat
        } else {
            0nat
        }
    }
}

/// Sum of the values in the filled slots.
pub open spec fn filled_sum(s: Seq<Option<usize>>) -> nat
    decreases s.len(),
{
    if s.len() == 0 {
        0
    } else {
        filled_sum(s.drop_last()) + match s.last() {
            Some(v) => v as nat,
            None => 0nat,
        }
    }
}

proof fn lemma_filled_count_bounded<V>(s: Seq<Option<V>>)
    ensures
        filled_count(s) <= s.len(),
    decreases s.len(),
{
    if s.len() > 0 {
        lemma_filled_count_bounded(s.drop_last());
    }
}

proof fn lemma_filled_update<V>(s: Seq<Option<V>>, i: int, v: V)
    requires
        0 <= i < s.len(),
    ensures
        filled_count(s.update(i, Some(v))) == filled_count(s) + if s[i] is Some {
            0int
        } else {
            1int
        },
    decreases s.len(),
{
    let t = s.update(i, Some(v));
    if i == s.len() - 1 {
        assert(t.drop_last() =~= s.drop_last());
    } else {
        assert(t.drop_last() =~= s.drop_last().update(i, Some(v)));
        lemma_filled_update(s.drop_last(), i, v);
    }
}

proof fn lemma_sum_update(s: Seq<Option<usize>>, i: int, v: usize)
    requires
        0 <= i < s.len(),
    ensures
        filled_sum(s.update(i, Some(v))) == filled_sum(s) + v - match s[i] {
            Some(u) => u as int,
            None => 0int,
        },
    decreases s.len(),
{
    let t = s.update(i, Some(v));
    if i == s.len() - 1 {
        assert(t.drop_last() =~= s.drop_last());
    } else {
        assert(t.drop_last() =~= s.drop_last().update(i, Some(v)));
        lemma_sum_update(s.drop_last(), i, v);
    }
}

impl<V> View for PositionMap<V> {
    type V = Map<GridPosition, V>;

    closed spec fn view(&self) -> Map<GridPosition, V> {
        Map::new(
            |p: GridPosition| self.covers(p) && self.slots@[self.slot_of(p)] is Some,
            |p: GridPosition| self.slots@[self.slot_of(p)]->Some_0,
        )
    }
}

impl<V> PositionMap<V> {
    #[verifier::type_invariant]
    spec fn inv(&self) -> bool {
        self.slots@.len() == self.width * self.height
    }

    pub closed spec fn spec_width(&self) -> nat {
        self.width as nat
    }

    pub closed spec fn spec_height(&self) -> nat {
        self.height as nat
    }

    /// The cells that can be keys of this map.
    pub open spec fn covers(&self, p: GridPosition) -> bool {
        p.x < self.spec_width() && p.y < self.spec_height()
    }

    /// The stored slots, one per cell in row-major order.
    pub closed spec fn slot_values(&self) -> Seq<Option<V>> {
        self.slots@
    }

    /// The slot of a cell.
    pub closed spec fn slot_of(&self, p: GridPosition) -> int {
        p.y * self.width + p.x
    }

    /// How many cells have a value.
    pub closed spec fn filled(&self) -> nat {
        filled_count(self.slots@)
    }

    /// How many cells the map covers.
    pub open spec fn capacity(&self) -> nat {
        self.spec_width() * self.spec_height()
    }

    /// An empty map over the cells of a `width` by `height` grid.
    pub fn new(width: usize, height: usize) -> (r: Self)
        requires
            width * height <= usize::MAX,
        ensures
            r@ == Map::<GridPosition, V>::empty(),
            r.spec_width() == width,
            r.spec_height() == height,
            r.filled() == 0,
    {
        let n: usize = width * height;
        let mut slots: Vec<Option<V>> = Vec::new();
        let mut i: usize = 0;
        while i < n
            invariant
                i <= n,
                slots@.len() == i,
                forall|j: int| 0 <= j < i ==> slots@[j] is None,
                filled_count(slots@) == 0,
            decreases n - i,
        {
            let ghost before = slots@;
            slots.push(None);
            assert(slots@.drop_last() =~= before);
            i = i + 1;
        }
        let r = PositionMap { width, height, slots };
        assert forall|p: GridPosition| r.covers(p) implies !(r.slots@[r.slot_of(p)] is Some) by {
            r.lemma_slot(p);
        }
        assert(r@ =~= Map::<GridPosition, V>::empty());
        r
    }

    proof fn lemma_slot(&self, p: GridPosition)
        requires
            self.inv(),
            self.covers(p),
        ensures
            0 <= self.slot_of(p) < self.slots@.len(),
            self.slot_of(p) < self.width * self.height,
            0 <= p.y * self.width <= self.slot_of(p),
    {
        lemma_row_major_in_range(self.width as int, self.height as int, p.x as int, p.y as int);
    }

    /// Stores `value` for the cell `position` and gives back the value it replaced.
    pub fn insert(&mut self, position: GridPosition, value: V) -> (r: Option<V>)
        requires
            old(self).covers(position),
        ensures
            final(self)@ == old(self)@.insert(position, value),
            final(self).spec_width() == old(self).spec_width(),
            final(self).spec_height() == old(self).spec_height(),
            r == (if old(self)@.contains_key(position) {
                Some(old(self)@[position])
            } else {
                None::<V>
            }),
            final(self).filled() == old(self).filled() + if old(self)@.contains_key(position) {
                0int
            } else {
                1int
            },
            final(self).filled() <= final(self).capacity(),
            final(self).slot_values() == old(self).slot_values().update(
                old(self).slot_of(position),
                Some(value),
            ),
            0 <= old(self).slot_of(position) < old(self).slot_values().len(),
            final(self).slot_of(position) == old(self).slot_of(position),
    {
        proof {
            use_type_invariant(&*self);
            self.lemma_slot(position);
        }
        assert(self.slots.len() == self.slots@.len());
        let index: usize = position.y * self.width + position.x;
        let ghost old_slots = self.slots@;
        let mut previous = Some(value);
        std::mem::swap(&mut previous, &mut self.slots[index]);
        proof {
            lemma_filled_update(old_slots, index as int, value);
            lemma_filled_count_bounded(self.slots@);
            assert(self.slots@ == old_slots.update(index as int, Some(value)));
            let target = old(self)@.insert(position, value);
            assert forall|q: GridPosition|
                #![trigger self@.contains_key(q)]
                #![trigger target.contains_key(q)]
                self@.contains_key(q) == target.contains_key(q) && (self@.contains_key(q)
                    ==> self@[q] == target[q]) by {
                if q != position && q.x < self.width && q.y < self.height {
                    lemma_row_major_in_range(
                        self.width as int,
                        self.height as int,
                        q.x as int,
                        q.y as int,
                    );
                    lemma_row_major_injective(
                        self.width as int,
                        q.x as int,
                        q.y as int,
                        position.x as int,
                        position.y as int,
                    );
                }
            }
            assert(self@ =~= old(self)@.insert(position, value));
        }
        previous
    }

    /// The value stored for `position`, if any.
    pub fn get(&self, position: GridPosition) -> (r: Option<V>) where V: Copy
        ensures
            r == (if self@.contains_key(position) {
                Some(self@[position])
            } else {
                None::<V>
            }),
    {
        proof {
            use_type_invariant(self);
        }
        if position.x < self.width && position.y < self.height {
            proof {
                self.lemma_slot(position);
            }
            assert(self.slots.len() == self.slots@.len());
            self.slots[position.y * self.width + position.x]
        } else {
            None
        }
    }
}

// ------------------------------------------------------------------------------------------
// Costs and parents
// ------------------------------------------------------------------------------------------

/// A cost should be recorded when the cell has none yet or `new_cost` beats the known one.
pub open spec fn improves_cost(costs: Map<GridPosition, usize>, position: GridPosition, new_cost: usize) -> bool {
    !costs.contains_key(position) || new_cost < costs[position]
}

/// Whether `new_cost` should replace what `cost_so_far` knows of `position`.
pub fn should_update_cost(cost_so_far: &PositionMap<usize>, position: GridPosition, new_cost: usize) -> (r:
    bool)
    ensures
        r == improves_cost(cost_so_far@, position, new_cost),
{
    match cost_so_far.get(position) {
        Some(old_cost) => new_cost < old_cost,
        None => true,
    }
}

/// Where following the parent links `k` times from `p` leads, or `None` once a cell
/// without a parent is left behind.
pub open spec fn parent_walk(parents: Map<GridPosition, GridPosition>, p: GridPosition, k: nat) -> Option<
    GridPosition,
>
    decreases k,
{
    if k == 0 {
        Some(p)
    } else {
        match parent_walk(parents, p, (k - 1) as nat) {
            Some(q) => if parents.contains_key(q) {
                Some(parents[q])
            } else {
                None
            },
            None => None,
        }
    }
}

/// Following the parents from `goal` reaches `start`.
pub open spec fn chain_reaches(parents: Map<GridPosition, GridPosition>, start: GridPosition, goal: GridPosition) -> bool {
    exists|k: nat| parent_walk(parents, goal, k) == Some(start)
}

/// Following the parents from `goal` reaches `start` or a cell without parent.
pub open spec fn chain_ends(parents: Map<GridPosition, GridPosition>, start: GridPosition, goal: GridPosition) -> bool {
    exists|k: nat|
        #![trigger parent_walk(parents, goal, k)]
        parent_walk(parents, goal, k) is None || parent_walk(parents, goal, k) == Some(start)
}

/// The first number of steps after which following the parents from `goal` arrives
/// at `start`.
pub open spec fn first_arrival(parents: Map<GridPosition, GridPosition>, start: GridPosition, goal: GridPosition) -> nat {
    choose|k: nat|
        #![trigger parent_walk(parents, goal, k)]
        parent_walk(parents, goal, k) == Some(start) && forall|j: nat|
            j < k ==> #[trigger] parent_walk(parents, goal, j) != Some(start)
}

/// The path the parent links describe from `start` to `goal`: the cells met while
/// following the parents back from `goal` until `start` is first reached, in reverse;
/// `NoPathFound` when `start` is never reached.
pub open spec fn chain_path(parents: Map<GridPosition, GridPosition>, start: GridPosition, goal: GridPosition) -> Result<
    Seq<GridPosition>,
    PathPlanningError,
> {
    if chain_reaches(parents, start, goal) {
        let k = first_arrival(parents, start, goal);
        Ok(Seq::new(k + 1, |i: int| parent_walk(parents, goal, (k - i) as nat)->Some_0))
    } else {
        Err(PathPlanningError::NoPathFound)
    }
}

/// A planning result with the path taken by its contents.
pub open spec fn path_result(r: Result<Vec<GridPosition>, PathPlanningError>) -> Result<
    Seq<GridPosition>,
    PathPlanningError,
> {
    match r {
        Ok(path) => Ok(path@),
        Err(e) => Err(e),
    }
}

/// Once the walk has stopped, it stays stopped.
proof fn lemma_walk_stays_none(parents: Map<GridPosition, GridPosition>, p: GridPosition, k: nat, j: nat)
    requires
        parent_walk(parents, p, k) is None,
        k <= j,
    ensures
        parent_walk(parents, p, j) is None,
    decreases j - k,
{
    if k < j {
        lemma_walk_stays_none(parents, p, k, (j - 1) as nat);
    }
}

/// Following the parents back from `goal` until `start`, and reversing: the path
/// from `start` to `goal` that the parent links describe.
pub fn reconstruct_path(came_from: &PositionMap<GridPosition>, start: GridPosition, goal: GridPosition) -> (r:
    Result<Vec<GridPosition>, PathPlanningError>)
    requires
        chain_ends(came_from@, start, goal),
    ensures
        match r {
            Ok(path) => {
                &&& path@.len() >= 1
                &&& parent_walk(came_from@, goal, (path@.len() - 1) as nat) == Some(start)
                &&& forall|j: nat|
                    j < path@.len() - 1 ==> #[trigger] parent_walk(came_from@, goal, j) != Some(start)
                &&& forall|i: int|
                    0 <= i < path@.len() ==> parent_walk(came_from@, goal, (path@.len() - 1 - i) as nat)
                        == Some(#[trigger] path@[i])
            },
            Err(e) => e == PathPlanningError::NoPathFound && !chain_reaches(came_from@, start, goal),
        },
        path_result(r) == chain_path(came_from@, start, goal),
{
    let ghost parents = came_from@;
    if start == goal {
        let mut single: Vec<GridPosition> = Vec::new();
        single.push(start);
        proof {
            lemma_chain_path_of_arrival(parents, start, goal, single@);
        }
        return Ok(single);
    }
    let ghost bound: nat = choose|k: nat|
        #![trigger parent_walk(parents, goal, k)]
        parent_walk(parents, goal, k) is None || parent_walk(parents, goal, k) == Some(start);

    let mut current = goal;
    let mut path: Vec<GridPosition> = Vec::new();
    path.push(goal);
    let ghost mut steps: nat = 0;

    loop
        invariant
            parents == came_from@,
            start != goal,
            parent_walk(parents, goal, bound) is None || parent_walk(parents, goal, bound) == Some(start),
            path@.len() == steps + 1,
            parent_walk(parents, goal, steps) == Some(current),
            current != start,
            forall|j: nat| j <= steps ==> #[trigger] parent_walk(parents, goal, j) != Some(start),
            forall|i: int| 0 <= i <= steps ==> parent_walk(parents, goal, i as nat) == Some(#[trigger] path@[i]),
        decreases bound - steps,
    {
        proof {
            if steps >= bound {
                assert(parent_walk(parents, goal, bound) != Some(start));
                if steps > bound {
                    lemma_walk_stays_none(parents, goal, bound, steps);
                }
                assert(false);
            }
        }
        match came_from.get(current) {
            Some(previous) => {
                current = previous;
                path.push(current);
                proof {
                    steps = steps + 1;
                }
                if current == start {
                    let reversed = reverse_positions(&path);
                    proof {
                        assert forall|i: int| 0 <= i < reversed@.len() implies parent_walk(
                            parents,
                            goal,
                            (reversed@.len() - 1 - i) as nat,
                        ) == Some(#[trigger] reversed@[i]) by {
                            assert(reversed@[i] == path@[path@.len() - 1 - i]);
                        }
                        lemma_chain_path_of_arrival(parents, start, goal, reversed@);
                    }
                    return Ok(reversed);
                }
            },
            None => {
                proof {
                    assert(parent_walk(parents, goal, steps + 1) is None);
                    assert forall|k: nat| parent_walk(parents, goal, k) != Some(start) by {
                        if k > steps {
                            lemma_walk_stays_none(parents, goal, steps + 1, k);
                        }
                    }
                }
                return Err(PathPlanningError::NoPathFound);
            },
        }
    }
}

/// A path whose cells are those of the parent walk from `goal`, read backwards up to the
/// first arrival at `start`, is the path the parent links describe.
proof fn lemma_chain_path_of_arrival(
    parents: Map<GridPosition, GridPosition>,
    start: GridPosition,
    goal: GridPosition,
    path: Seq<GridPosition>,
)
    requires
        path.len() >= 1,
        parent_walk(parents, goal, (path.len() - 1) as nat) == Some(start),
        forall|j: nat| j < path.len() - 1 ==> #[trigger] parent_walk(parents, goal, j) != Some(start),
        forall|i: int|
            0 <= i < path.len() ==> parent_walk(parents, goal, (path.len() - 1 - i) as nat) == Some(
                #[trigger] path[i],
            ),
    ensures
        chain_path(parents, start, goal) == Ok::<Seq<GridPosition>, PathPlanningError>(path),
{
    let k: nat = (path.len() - 1) as nat;
    assert(parent_walk(parents, goal, k) == Some(start));
    assert(chain_reaches(parents, start, goal));
    let k2 = first_arrival(parents, start, goal);
    assert(parent_walk(parents, goal, k2) == Some(start) && forall|j: nat|
        j < k2 ==> #[trigger] parent_walk(parents, goal, j) != Some(start));
    if k2 < k {
        assert(parent_walk(parents, goal, k2) != Some(start));
    }
    if k < k2 {
        assert(parent_walk(parents, goal, k) != Some(start));
    }
    assert(k2 == k);
    let s = Seq::new(k + 1, |i: int| parent_walk(parents, goal, (k - i) as nat)->Some_0);
    assert forall|i: int| 0 <= i < path.len() implies s[i] == path[i] by {
        assert(parent_walk(parents, goal, (path.len() - 1 - i) as nat) == Some(path[i]));
    }
    assert(s =~= path);
}

/// The positions in reverse order.
fn reverse_positions(v: &Vec<GridPosition>) -> (r: Vec<GridPosition>)
    ensures
        r@ == v@.reverse(),
{
    let mut r: Vec<GridPosition> = Vec::new();
    let mut i: usize = v.len();
    while i > 0
        invariant
            i <= v@.len(),
            r@.len() == v@.len() - i,
            forall|j: int| 0 <= j < r@.len() ==> r@[j] == v@[v@.len() - 1 - j],
        decreases i,
    {
        i = i - 1;
        r.push(v[i]);
    }
    assert(r@ =~= v@.reverse());
    r
}

// ------------------------------------------------------------------------------------------
// Frontier
// ------------------------------------------------------------------------------------------

/// A cell waiting to be explored, with the priority it was queued under.
#[derive(Debug, Clone, Copy, PartialEq, Eq, Structural)]
pub struct FrontierEntry {
    pub position: GridPosition,
    pub priority: usize,
}

/// `a` is explored before `b`: lower priority first, then lower row, then lower column.
pub open spec fn entry_precedes(a: FrontierEntry, b: FrontierEntry) -> bool {
    ||| a.priority < b.priority
    ||| (a.priority == b.priority && a.position.y < b.position.y)
    ||| (a.priority == b.priority && a.position.y == b.position.y && a.position.x < b.position.x)
}

impl FrontierEntry {
    /// Whether `self` is explored before `other`.
    pub fn precedes(&self, other: &FrontierEntry) -> (r: bool)
        ensures
            r == entry_precedes(*self, *other),
    {
        if self.priority != other.priority {
            self.priority < other.priority
        } else if self.position.y != other.position.y {
            self.position.y < other.position.y
        } else {
            self.position.x < other.position.x
        }
    }
}

/// The cells waiting to be explored; `pop` hands out the one that precedes all others.
pub struct Frontier {
    entries: Vec<FrontierEntry>,
}

impl View for Frontier {
    type V = Multiset<FrontierEntry>;

    closed spec fn view(&self) -> Multiset<FrontierEntry> {
        self.entries@.to_multiset()
    }
}

impl Frontier {
    pub fn new() -> (r: Self)
        ensures
            r@ == Multiset::<FrontierEntry>::empty(),
    {
        let r = Frontier { entries: Vec::new() };
        assert(r.entries@ =~= Seq::<FrontierEntry>::empty());
        assert(r@ =~= Multiset::<FrontierEntry>::empty()) by {
            broadcast use vstd::multiset::group_multiset_axioms;
        }
        r
    }

    pub fn push(&mut self, entry: FrontierEntry)
        ensures
            final(self)@ == old(self)@.insert(entry),
    {
        self.entries.push(entry);
    }

    pub fn len(&self) -> (r: usize)
        ensures
            r == self@.len(),
    {
        self.entries.len()
    }

    /// Takes out the entry that precedes every other one, or `None` when empty.
    pub fn pop(&mut self) -> (r: Option<FrontierEntry>)
        ensures
            match r {
                None => old(self)@.len() == 0 && final(self)@ == old(self)@,
                Some(e) => {
                    &&& old(self)@.count(e) > 0
                    &&& forall|f: FrontierEntry| old(self)@.count(f) > 0 ==> !entry_precedes(f, e)
                    &&& final(self)@ == old(self)@.remove(e)
                },
            },
    {
        let n: usize = self.entries.len();
        if n == 0 {
            return None;
        }
        let mut best: usize = 0;
        let mut i: usize = 1;
        while i < n
            invariant
                n == self.entries@.len(),
                self.entries@ == old(self).entries@,
                1 <= i <= n,
                best < i,
                forall|k: int| 0 <= k < i ==> !entry_precedes(self.entries@[k], self.entries@[best as int]),
            decreases n - i,
        {
            if self.entries[i].precedes(&self.entries[best]) {
                best = i;
            }
            i = i + 1;
        }
        let ghost before = self.entries@;
        let e = self.entries.remove(best);
        proof {
            assert forall|f: FrontierEntry| before.to_multiset().count(f) > 0 implies !entry_precedes(f, e) by {
                assert(before.contains(f));
                let k = choose|k: int| 0 <= k < before.len() && before[k] == f;
            }
        }
        Some(e)
    }
}

// ------------------------------------------------------------------------------------------
// The state of an A* search
// ------------------------------------------------------------------------------------------

/// The entry that queues `p` under its current cost.
pub open spec fn entry_for(cost: Map<GridPosition, usize>, p: GridPosition, goal: GridPosition) -> FrontierEntry {
    FrontierEntry { position: p, priority: (cost[p] + manhattan(p, goal)) as usize }
}

/// The entry the search starts from.
pub open spec fn start_entry(start: GridPosition) -> FrontierEntry {
    FrontierEntry { position: start, priority: 0 }
}

/// Every open neighbour of `p` has a cost, at most one more than the cost of `p`.
pub open spec fn settled(m: GridModel, cost: Map<GridPosition, usize>, p: GridPosition) -> bool {
    forall|q: GridPosition|
        #![trigger adjacent(p, q)]
        m.is_open(q) && adjacent(p, q) ==> cost.contains_key(q) && cost[q] <= cost[p] + 1
}

/// Either `p` waits in the frontier under its current cost, or it has been settled.
pub open spec fn covered(
    m: GridModel,
    start: GridPosition,
    goal: GridPosition,
    cost: Map<GridPosition, usize>,
    frontier: Multiset<FrontierEntry>,
    p: GridPosition,
) -> bool {
    ||| frontier.count(entry_for(cost, p, goal)) > 0
    ||| (p == start && frontier.count(start_entry(start)) > 0)
    ||| settled(m, cost, p)
}

/// What holds of the search between two of its steps; `skip` names the cell being
/// expanded, which need not be covered yet.
#[verifier::opaque]
pub open spec fn search_invariant(
    m: GridModel,
    start: GridPosition,
    goal: GridPosition,
    cost: Map<GridPosition, usize>,
    parents: Map<GridPosition, GridPosition>,
    frontier: Multiset<FrontierEntry>,
    filled: nat,
    skip: Option<GridPosition>,
) -> bool {
    &&& cost.contains_key(start)
    &&& cost[start] == 0
    &&& filled <= m.width * m.height
    &&& forall|p: GridPosition| #[trigger] cost.contains_key(p) ==> m.is_open(p) && cost[p] < filled
    &&& forall|p: GridPosition|
        #![trigger parents.contains_key(p)]
        #![trigger cost.contains_key(p)]
        parents.contains_key(p) <==> (cost.contains_key(p) && p != start)
    &&& forall|p: GridPosition| #[trigger]
        parents.contains_key(p) ==> cost.contains_key(parents[p]) && adjacent(parents[p], p)
            && cost[parents[p]] < cost[p]
    &&& forall|e: FrontierEntry| #[trigger]
        frontier.count(e) > 0 ==> cost.contains_key(e.position) && (e.priority >= cost[e.position]
            + manhattan(e.position, goal) || e == start_entry(start))
    &&& forall|p: GridPosition|
        cost.contains_key(p) && skip != Some(p) ==> #[trigger] covered(m, start, goal, cost, frontier, p)
    &&& cost.contains_key(goal) ==> frontier.count(entry_for(cost, goal, goal)) > 0
}

/// A cost no larger than the number of cells, plus the distance to the goal, fits in `usize`.
proof fn lemma_priority_fits(m: GridModel, p: GridPosition, goal: GridPosition, c: int)
    requires
        m.wf(),
        m.in_bounds(p),
        m.in_bounds(goal),
        0 <= c <= m.width * m.height,
    ensures
        c + manhattan(p, goal) <= usize::MAX,
{
    assert(m.width + m.height <= m.width * m.height + 1) by (nonlinear_arith)
        requires
            m.width >= 1,
            m.height >= 1,
    ;
}

/// Along a walk, the distance to its last cell shrinks by at most one per step.
proof fn lemma_manhattan_along_walk(m: GridModel, path: Seq<GridPosition>, i: int)
    requires
        is_walk(m, path),
        0 <= i < path.len(),
    ensures
        manhattan(path[i], path.last()) <= path.len() - 1 - i,
    decreases path.len() - i,
{
    if i < path.len() - 1 {
        lemma_manhattan_along_walk(m, path, i + 1);
        assert(step_is_adjacent(path, i));
    }
}

/// Following the parents from `v` one step more is following them from `v`'s parent.
proof fn lemma_walk_shift(parents: Map<GridPosition, GridPosition>, v: GridPosition, j: nat)
    requires
        parents.contains_key(v),
    ensures
        parent_walk(parents, v, j + 1) == parent_walk(parents, parents[v], j),
    decreases j,
{
    let w = parent_walk(parents, v, j);
    assert(parent_walk(parents, v, j + 1) == match w {
        Some(q) => if parents.contains_key(q) {
            Some(parents[q])
        } else {
            None
        },
        None => None,
    });
    if j > 0 {
        lemma_walk_shift(parents, v, (j - 1) as nat);
        assert(parent_walk(parents, parents[v], j) == match parent_walk(parents, parents[v], (j - 1) as nat) {
            Some(q) => if parents.contains_key(q) {
                Some(parents[q])
            } else {
                None
            },
            None => None,
        });
    } else {
        assert(w == Some(v));
        assert(parent_walk(parents, parents[v], 0) == Some(parents[v]));
    }
}

/// The parents lead from every cell with a cost back to `start`, within that cost.
proof fn lemma_chain_to_start(
    m: GridModel,
    start: GridPosition,
    goal: GridPosition,
    cost: Map<GridPosition, usize>,
    parents: Map<GridPosition, GridPosition>,
    frontier: Multiset<FrontierEntry>,
    filled: nat,
    skip: Option<GridPosition>,
    v: GridPosition,
) -> (k: nat)
    requires
        search_invariant(m, start, goal, cost, parents, frontier, filled, skip),
        cost.contains_key(v),
    ensures
        k <= cost[v],
        parent_walk(parents, v, k) == Some(start),
    decreases cost[v],
{
    reveal(search_invariant);
    if v == start {
        0
    } else {
        assert(parents.contains_key(v));
        let p = parents[v];
        let k0 = lemma_chain_to_start(m, start, goal, cost, parents, frontier, filled, skip, p);
        lemma_walk_shift(parents, v, k0);
        k0 + 1
    }
}

/// Every cell met while following the parents from a cell with a cost has a cost.
proof fn lemma_walk_has_cost(
    m: GridModel,
    start: GridPosition,
    goal: GridPosition,
    cost: Map<GridPosition, usize>,
    parents: Map<GridPosition, GridPosition>,
    frontier: Multiset<FrontierEntry>,
    filled: nat,
    skip: Option<GridPosition>,
    v: GridPosition,
    j: nat,
)
    requires
        search_invariant(m, start, goal, cost, parents, frontier, filled, skip),
        cost.contains_key(v),
        parent_walk(parents, v, j) is Some,
    ensures
        cost.contains_key(parent_walk(parents, v, j)->0),
    decreases j,
{
    reveal(search_invariant);
    if j > 0 {
        lemma_walk_has_cost(m, start, goal, cost, parents, frontier, filled, skip, v, (j - 1) as nat);
    }
}

/// The cells met while following the parents back from `goal`, read backwards, form a walk.
proof fn lemma_chain_is_walk(
    m: GridModel,
    start: GridPosition,
    goal: GridPosition,
    cost: Map<GridPosition, usize>,
    parents: Map<GridPosition, GridPosition>,
    frontier: Multiset<FrontierEntry>,
    filled: nat,
    skip: Option<GridPosition>,
    path: Seq<GridPosition>,
)
    requires
        search_invariant(m, start, goal, cost, parents, frontier, filled, skip),
        cost.contains_key(goal),
        path.len() >= 1,
        forall|i: int|
            0 <= i < path.len() ==> parent_walk(parents, goal, (path.len() - 1 - i) as nat) == Some(
                #[trigger] path[i],
            ),
    ensures
        is_walk(m, path),
{
    reveal(search_invariant);
    let k = path.len() - 1;
    assert forall|i: int| 0 <= i < path.len() implies m.is_open(#[trigger] path[i]) by {
        assert(parent_walk(parents, goal, (k - i) as nat) == Some(path[i]));
        lemma_walk_has_cost(m, start, goal, cost, parents, frontier, filled, skip, goal, (k - i) as nat);
    }
    assert forall|i: int| 0 <= i < path.len() - 1 implies #[trigger] step_is_adjacent(path, i) by {
        let j = (k - i - 1) as nat;
        assert(parent_walk(parents, goal, j) == Some(path[i + 1]));
        assert(parent_walk(parents, goal, (k - i) as nat) == Some(path[i]));
        assert((j + 1) as nat == (k - i) as nat);
        let u = path[i + 1];
        lemma_walk_has_cost(m, start, goal, cost, parents, frontier, filled, skip, goal, j);
        assert(parents.contains_key(u));
        assert(parents[u] == path[i]);
    }
}

/// Against any walk from `start` to `goal`: either the goal already has a cost no larger
/// than the walk's length in steps, or some frontier entry has a priority no larger.
proof fn lemma_frontier_bounds_walks(
    m: GridModel,
    start: GridPosition,
    goal: GridPosition,
    cost: Map<GridPosition, usize>,
    parents: Map<GridPosition, GridPosition>,
    frontier: Multiset<FrontierEntry>,
    filled: nat,
    path: Seq<GridPosition>,
    i: int,
)
    requires
        m.wf(),
        m.is_open(goal),
        search_invariant(m, start, goal, cost, parents, frontier, filled, None),
        is_path_between(m, path, start, goal),
        0 <= i < path.len(),
        cost.contains_key(path[i]),
        cost[path[i]] <= i,
    ensures
        (cost.contains_key(goal) && cost[goal] <= path.len() - 1) || exists|f: FrontierEntry|
            frontier.count(f) > 0 && f.priority <= path.len() - 1,
    decreases path.len() - i,
{
    reveal(search_invariant);
    if i < path.len() - 1 {
        let p = path[i];
        assert(covered(m, start, goal, cost, frontier, p));
        if frontier.count(entry_for(cost, p, goal)) > 0 {
            lemma_manhattan_along_walk(m, path, i);
            lemma_priority_fits(m, p, goal, cost[p] as int);
            let f = entry_for(cost, p, goal);
            assert(f.priority <= path.len() - 1);
        } else if p == start && frontier.count(start_entry(start)) > 0 {
            assert(start_entry(start).priority <= path.len() - 1);
        } else {
            assert(step_is_adjacent(path, i));
            assert(m.is_open(path[i + 1]));
            assert(adjacent(p, path[i + 1]));
            lemma_frontier_bounds_walks(m, start, goal, cost, parents, frontier, filled, path, i + 1);
        }
    }
}

/// The search invariant holds at the start: only the start has a cost, and it is queued.
proof fn lemma_search_starts(m: GridModel, start: GridPosition, goal: GridPosition)
    requires
        m.wf(),
        m.is_open(start),
        start != goal,
    ensures
        search_invariant(
            m,
            start,
            goal,
            initial_search(start).cost,
            initial_search(start).parents,
            initial_search(start).frontier,
            1,
            None,
        ),
        1 <= m.width * m.height,
{
    reveal(search_invariant);
    let st = initial_search(start);
    assert(m.width * m.height >= 1) by (nonlinear_arith)
        requires
            m.width >= 1,
            m.height >= 1,
    ;
    assert forall|p: GridPosition|
        st.cost.contains_key(p) && None::<GridPosition> != Some(p) implies #[trigger] covered(
        m,
        start,
        goal,
        st.cost,
        st.frontier,
        p,
    ) by {
        assert(p == start);
        assert(st.frontier.count(start_entry(start)) > 0);
    }
    assert(!st.cost.contains_key(goal));
}

/// A queued cell has a cost, below the number of cells with a cost, and is open.
proof fn lemma_queued_cell(
    m: GridModel,
    start: GridPosition,
    goal: GridPosition,
    cost: Map<GridPosition, usize>,
    parents: Map<GridPosition, GridPosition>,
    frontier: Multiset<FrontierEntry>,
    filled: nat,
    e: FrontierEntry,
)
    requires
        search_invariant(m, start, goal, cost, parents, frontier, filled, None),
        frontier.count(e) > 0,
    ensures
        cost.contains_key(e.position),
        cost[e.position] < filled,
        filled <= m.width * m.height,
        m.is_open(e.position),
{
    reveal(search_invariant);
}

/// Once the expanded cell is settled, it is covered like every other.
proof fn lemma_settle(
    m: GridModel,
    start: GridPosition,
    goal: GridPosition,
    cost: Map<GridPosition, usize>,
    parents: Map<GridPosition, GridPosition>,
    frontier: Multiset<FrontierEntry>,
    filled: nat,
    current: GridPosition,
)
    requires
        search_invariant(m, start, goal, cost, parents, frontier, filled, Some(current)),
        settled(m, cost, current),
    ensures
        search_invariant(m, start, goal, cost, parents, frontier, filled, None),
{
    reveal(search_invariant);
    assert(covered(m, start, goal, cost, frontier, current));
}

/// Taking the entry of the cell about to be expanded out of the frontier keeps every
/// other cell covered.
proof fn lemma_pop_keeps_invariant(
    m: GridModel,
    start: GridPosition,
    goal: GridPosition,
    cost: Map<GridPosition, usize>,
    parents: Map<GridPosition, GridPosition>,
    frontier: Multiset<FrontierEntry>,
    filled: nat,
    e: FrontierEntry,
)
    requires
        search_invariant(m, start, goal, cost, parents, frontier, filled, None),
        frontier.count(e) > 0,
        e.position != goal,
    ensures
        search_invariant(m, start, goal, cost, parents, frontier.remove(e), filled, Some(e.position)),
{
    reveal(search_invariant);
    let f2 = frontier.remove(e);
    assert forall|p: GridPosition|
        cost.contains_key(p) && Some(e.position) != Some(p) implies #[trigger] covered(
        m,
        start,
        goal,
        cost,
        f2,
        p,
    ) by {
        assert(covered(m, start, goal, cost, frontier, p));
        assert(entry_for(cost, p, goal) != e);
        if p == start {
            assert(start_entry(start) != e);
        }
    }
    if cost.contains_key(goal) {
        assert(entry_for(cost, goal, goal) != e);
    }
}

/// Recording the cheaper cost `new_cost` for `next`, reached from `current`, and queueing
/// `next` under it keeps the search invariant.
proof fn lemma_update_keeps_invariant(
    m: GridModel,
    start: GridPosition,
    goal: GridPosition,
    cost: Map<GridPosition, usize>,
    parents: Map<GridPosition, GridPosition>,
    frontier: Multiset<FrontierEntry>,
    filled: nat,
    current: GridPosition,
    next: GridPosition,
    new_cost: usize,
    filled2: nat,
)
    requires
        m.wf(),
        m.in_bounds(goal),
        search_invariant(m, start, goal, cost, parents, frontier, filled, Some(current)),
        cost.contains_key(current),
        new_cost == cost[current] + 1,
        m.is_open(next),
        adjacent(current, next),
        improves_cost(cost, next, new_cost),
        filled2 == filled + (if cost.contains_key(next) {
            0int
        } else {
            1int
        }),
        filled2 <= m.width * m.height,
    ensures
        search_invariant(
            m,
            start,
            goal,
            cost.insert(next, new_cost),
            parents.insert(next, current),
            frontier.insert(entry_for(cost.insert(next, new_cost), next, goal)),
            filled2,
            Some(current),
        ),
{
    reveal(search_invariant);
    let cost2 = cost.insert(next, new_cost);
    let parents2 = parents.insert(next, current);
    let e = entry_for(cost2, next, goal);
    let f2 = frontier.insert(e);
    assert(next != start);
    assert(next != current);
    lemma_priority_fits(m, next, goal, new_cost as int);
    assert(e.priority == new_cost + manhattan(next, goal));

    assert forall|p: GridPosition| #[trigger] cost2.contains_key(p) implies m.is_open(p) && cost2[p]
        < filled2 by {
        if p != next {
            assert(cost.contains_key(p));
        }
    }
    assert forall|p: GridPosition| #[trigger]
        parents2.contains_key(p) implies cost2.contains_key(parents2[p]) && adjacent(parents2[p], p)
        && cost2[parents2[p]] < cost2[p] by {
        if p != next {
            assert(parents.contains_key(p));
            if parents[p] == next {
                assert(cost.contains_key(next));
            }
        }
    }
    assert forall|x: GridPosition|
        #![trigger parents2.contains_key(x)]
        #![trigger cost2.contains_key(x)]
        parents2.contains_key(x) <==> (cost2.contains_key(x) && x != start) by {
        if x != next {
            assert(parents.contains_key(x) <==> (cost.contains_key(x) && x != start));
        }
    }
    assert forall|g: FrontierEntry| #[trigger]
        f2.count(g) > 0 implies cost2.contains_key(g.position) && (g.priority >= cost2[g.position]
        + manhattan(g.position, goal) || g == start_entry(start)) by {
        if g != e {
            assert(frontier.count(g) > 0);
        }
    }
    assert forall|p: GridPosition|
        cost2.contains_key(p) && Some(current) != Some(p) implies #[trigger] covered(
        m,
        start,
        goal,
        cost2,
        f2,
        p,
    ) by {
        if p == next {
            assert(f2.count(e) > 0);
        } else {
            assert(cost.contains_key(p));
            assert(covered(m, start, goal, cost, frontier, p));
            assert(entry_for(cost2, p, goal) == entry_for(cost, p, goal));
            if settled(m, cost, p) {
                assert forall|q: GridPosition|
                    #![trigger adjacent(p, q)]
                    m.is_open(q) && adjacent(p, q) implies cost2.contains_key(q) && cost2[q] <= cost2[p]
                    + 1 by {
                    assert(cost.contains_key(q) && cost[q] <= cost[p] + 1);
                }
                assert(settled(m, cost2, p));
            }
        }
    }
    if cost2.contains_key(goal) && goal != next {
        assert(entry_for(cost2, goal, goal) == entry_for(cost, goal, goal));
    }
}

// ------------------------------------------------------------------------------------------
// The search, step by step
// ------------------------------------------------------------------------------------------

/// What the search holds between two steps: the best known costs, the parent of each
/// reached cell, and the queued entries.
#[verifier::ext_equal]
pub struct SearchState {
    pub cost: Map<GridPosition, usize>,
    pub parents: Map<GridPosition, GridPosition>,
    pub frontier: Multiset<FrontierEntry>,
}

/// One step of the search either finishes it with a result or leads to a new state.
pub enum SearchStep {
    Finished(Result<Seq<GridPosition>, PathPlanningError>),
    Continue(SearchState),
}

/// The entry that no other queued entry precedes.
pub open spec fn least_entry(frontier: Multiset<FrontierEntry>) -> FrontierEntry {
    choose|e: FrontierEntry|
        frontier.count(e) > 0 && forall|f: FrontierEntry| frontier.count(f) > 0 ==> !entry_precedes(f, e)
}

/// Offering `next` the cost one more than `current`'s: taken, with `current` as parent and
/// a new queued entry, when it beats what is known of `next`.
pub open spec fn relax(
    goal: GridPosition,
    current: GridPosition,
    current_cost: usize,
    st: SearchState,
    next: GridPosition,
) -> SearchState {
    let new_cost = (current_cost + 1) as usize;
    if improves_cost(st.cost, next, new_cost) {
        SearchState {
            cost: st.cost.insert(next, new_cost),
            parents: st.parents.insert(next, current),
            frontier: st.frontier.insert(
                FrontierEntry { position: next, priority: (new_cost + manhattan(next, goal)) as usize },
            ),
        }
    } else {
        st
    }
}

/// Offering the first `j` of `neighbors`, in order.
pub open spec fn relax_all(
    goal: GridPosition,
    current: GridPosition,
    current_cost: usize,
    neighbors: Seq<GridPosition>,
    st: SearchState,
    j: int,
) -> SearchState
    decreases j,
{
    if j <= 0 {
        st
    } else {
        relax(goal, current, current_cost, relax_all(goal, current, current_cost, neighbors, st, j - 1), neighbors[j - 1])
    }
}

/// One step of the search: take out the least entry; at the goal, finish with the path
/// the parents describe; otherwise offer each neighbour of the cell, in the order up,
/// right, down, left. An empty frontier finishes with `NoPathFound`.
#[verifier::opaque]
pub open spec fn search_step(m: GridModel, start: GridPosition, goal: GridPosition, st: SearchState) -> SearchStep {
    if st.frontier.len() == 0 {
        SearchStep::Finished(Err(PathPlanningError::NoPathFound))
    } else {
        let e = least_entry(st.frontier);
        let rest = SearchState { cost: st.cost, parents: st.parents, frontier: st.frontier.remove(e) };
        if e.position == goal {
            SearchStep::Finished(chain_path(st.parents, start, goal))
        } else if !st.cost.contains_key(e.position) {
            SearchStep::Continue(rest)
        } else {
            let neighbors = m.neighbors_of(e.position);
            SearchStep::Continue(
                relax_all(goal, e.position, st.cost[e.position], neighbors, rest, neighbors.len() as int),
            )
        }
    }
}

/// The search run from `st` for at most `fuel` steps: its result, or `None` if it has not
/// finished by then.
pub open spec fn search_run(
    m: GridModel,
    start: GridPosition,
    goal: GridPosition,
    st: SearchState,
    fuel: nat,
) -> Option<Result<Seq<GridPosition>, PathPlanningError>>
    decreases fuel,
{
    if fuel == 0 {
        None
    } else {
        match search_step(m, start, goal, st) {
            SearchStep::Finished(r) => Some(r),
            SearchStep::Continue(next) => search_run(m, start, goal, next, (fuel - 1) as nat),
        }
    }
}

/// The state after `k` steps from `st`, if the search has not finished before.
pub open spec fn state_after(
    m: GridModel,
    start: GridPosition,
    goal: GridPosition,
    st: SearchState,
    k: nat,
) -> Option<SearchState>
    decreases k,
{
    if k == 0 {
        Some(st)
    } else {
        match state_after(m, start, goal, st, (k - 1) as nat) {
            Some(s) => match search_step(m, start, goal, s) {
                SearchStep::Continue(next) => Some(next),
                SearchStep::Finished(_) => None,
            },
            None => None,
        }
    }
}

/// The search starts with the start's cost 0 and the start queued under priority 0.
pub open spec fn initial_search(start: GridPosition) -> SearchState {
    SearchState {
        cost: Map::<GridPosition, usize>::empty().insert(start, 0),
        parents: Map::<GridPosition, GridPosition>::empty(),
        frontier: Multiset::<FrontierEntry>::empty().insert(start_entry(start)),
    }
}

/// What the A* planner answers: the checks on the start and the goal, the one-cell path
/// when they coincide, and otherwise the result the search finishes with.
pub open spec fn astar_outcome(m: GridModel, start: GridPosition, goal: GridPosition) -> Result<
    Seq<GridPosition>,
    PathPlanningError,
> {
    if !m.in_bounds(start) {
        Err(PathPlanningError::StartOutOfBounds)
    } else if !m.in_bounds(goal) {
        Err(PathPlanningError::GoalOutOfBounds)
    } else if !m.walkable(start) {
        Err(PathPlanningError::StartBlocked)
    } else if !m.walkable(goal) {
        Err(PathPlanningError::GoalBlocked)
    } else if start == goal {
        Ok(seq![start])
    } else {
        let n = choose|n: nat| #[trigger] search_run(m, start, goal, initial_search(start), n) is Some;
        search_run(m, start, goal, initial_search(start), n)->Some_0
    }
}

/// Once the search has finished, more fuel changes nothing.
proof fn lemma_search_run_stable(
    m: GridModel,
    start: GridPosition,
    goal: GridPosition,
    st: SearchState,
    a: nat,
    b: nat,
)
    requires
        search_run(m, start, goal, st, a) is Some,
        a <= b,
    ensures
        search_run(m, start, goal, st, b) == search_run(m, start, goal, st, a),
    decreases a,
{
    if a > 0 {
        match search_step(m, start, goal, st) {
            SearchStep::Finished(r) => {},
            SearchStep::Continue(next) => {
                lemma_search_run_stable(m, start, goal, next, (a - 1) as nat, (b - 1) as nat);
            },
        }
    }
}

/// Running from the start for `k + n` steps is running from the state after `k` steps
/// for `n`.
proof fn lemma_search_run_split(
    m: GridModel,
    start: GridPosition,
    goal: GridPosition,
    st: SearchState,
    k: nat,
    s: SearchState,
    n: nat,
)
    requires
        state_after(m, start, goal, st, k) == Some(s),
    ensures
        search_run(m, start, goal, st, k + n) == search_run(m, start, goal, s, n),
    decreases k,
{
    if k > 0 {
        let s0 = state_after(m, start, goal, st, (k - 1) as nat)->Some_0;
        lemma_search_run_split(m, start, goal, st, (k - 1) as nat, s0, n + 1);
        assert((k - 1) as nat + (n + 1) == k + n);
    }
}

/// A search that finishes with `r` after `k` steps and one more gives `r` as the
/// planner's answer.
proof fn lemma_outcome_is_finish(
    m: GridModel,
    start: GridPosition,
    goal: GridPosition,
    k: nat,
    s: SearchState,
    r: Result<Seq<GridPosition>, PathPlanningError>,
)
    requires
        m.is_open(start),
        m.is_open(goal),
        start != goal,
        state_after(m, start, goal, initial_search(start), k) == Some(s),
        search_step(m, start, goal, s) == SearchStep::Finished(r),
    ensures
        astar_outcome(m, start, goal) == r,
{
    reveal(search_step);
    let init = initial_search(start);
    lemma_search_run_split(m, start, goal, init, k, s, 1);
    assert(search_run(m, start, goal, s, 1) == Some(r));
    assert(search_run(m, start, goal, init, k + 1) is Some);
    let n = choose|n: nat| #[trigger] search_run(m, start, goal, init, n) is Some;
    if n <= k + 1 {
        lemma_search_run_stable(m, start, goal, init, n, k + 1);
    } else {
        lemma_search_run_stable(m, start, goal, init, k + 1, n);
    }
}

/// The step from a state whose least entry is not the goal: with the cell's cost known,
/// its neighbours are offered; the search goes on from there.
proof fn lemma_step_goes_on(
    m: GridModel,
    start: GridPosition,
    goal: GridPosition,
    k: nat,
    st: SearchState,
    e: FrontierEntry,
)
    requires
        state_after(m, start, goal, initial_search(start), k) == Some(st),
        st.frontier.count(e) > 0,
        forall|f: FrontierEntry| st.frontier.count(f) > 0 ==> !entry_precedes(f, e),
        e.position != goal,
    ensures
        ({
            let rest = SearchState { cost: st.cost, parents: st.parents, frontier: st.frontier.remove(e) };
            let next = if st.cost.contains_key(e.position) {
                relax_all(
                    goal,
                    e.position,
                    st.cost[e.position],
                    m.neighbors_of(e.position),
                    rest,
                    m.neighbors_of(e.position).len() as int,
                )
            } else {
                rest
            };
            state_after(m, start, goal, initial_search(start), k + 1) == Some(next)
        }),
{
    reveal(search_step);
    lemma_least_entry_unique(st.frontier, e);
    assert(st.frontier.len() > 0);
}

/// The step from a state whose least entry is the goal, or from an empty frontier.
proof fn lemma_step_finishes(
    m: GridModel,
    start: GridPosition,
    goal: GridPosition,
    st: SearchState,
    e: Option<FrontierEntry>,
)
    requires
        match e {
            None => st.frontier.len() == 0,
            Some(e) => st.frontier.count(e) > 0 && (forall|f: FrontierEntry|
                st.frontier.count(f) > 0 ==> !entry_precedes(f, e)) && e.position == goal,
        },
    ensures
        search_step(m, start, goal, st) == SearchStep::Finished(
            match e {
                None => Err(PathPlanningError::NoPathFound),
                Some(_) => chain_path(st.parents, start, goal),
            },
        ),
{
    reveal(search_step);
    if let Some(e) = e {
        lemma_least_entry_unique(st.frontier, e);
        assert(st.frontier.len() > 0);
    }
}

/// Two entries that no other queued entry precedes are the same entry.
proof fn lemma_least_entry_unique(frontier: Multiset<FrontierEntry>, e: FrontierEntry)
    requires
        frontier.count(e) > 0,
        forall|f: FrontierEntry| frontier.count(f) > 0 ==> !entry_precedes(f, e),
    ensures
        least_entry(frontier) == e,
{
    let l = least_entry(frontier);
    assert(frontier.count(l) > 0 && forall|f: FrontierEntry| frontier.count(f) > 0 ==> !entry_precedes(f, l));
    assert(!entry_precedes(l, e));
    assert(!entry_precedes(e, l));
}

// ------------------------------------------------------------------------------------------
// Laws
// ------------------------------------------------------------------------------------------

/// The heuristic is a distance: symmetric, never negative, and zero only from a cell
/// to itself.
pub proof fn law_heuristic_is_a_distance(a: GridPosition, b: GridPosition)
    ensures
        manhattan(a, b) == manhattan(b, a),
        manhattan(a, b) >= 0,
        manhattan(a, b) == 0 <==> a == b,
{
}

/// The heuristic is consistent: one step changes the estimate by at most one.
pub proof fn law_heuristic_is_consistent(a: GridPosition, b: GridPosition, goal: GridPosition)
    requires
        adjacent(a, b),
    ensures
        manhattan(a, goal) <= manhattan(b, goal) + 1,
{
}

/// The heuristic never overestimates: every walk from `a` to `b` takes at least their
/// Manhattan distance in steps.
pub proof fn law_heuristic_is_admissible(
    m: GridModel,
    path: Seq<GridPosition>,
    a: GridPosition,
    b: GridPosition,
)
    requires
        is_path_between(m, path, a, b),
    ensures
        manhattan(a, b) <= path.len() - 1,
{
    lemma_manhattan_along_walk(m, path, 0);
}

/// A path read back from parent links begins at `start` and ends at `goal`.
pub proof fn law_reconstructed_path_ends(
    parents: Map<GridPosition, GridPosition>,
    start: GridPosition,
    goal: GridPosition,
    path: Seq<GridPosition>,
)
    requires
        path.len() >= 1,
        parent_walk(parents, goal, (path.len() - 1) as nat) == Some(start),
        forall|i: int|
            0 <= i < path.len() ==> parent_walk(parents, goal, (path.len() - 1 - i) as nat) == Some(
                #[trigger] path[i],
            ),
    ensures
        path[0] == start,
        path.last() == goal,
{
    assert(parent_walk(parents, goal, (path.len() - 1 - 0) as nat) == Some(path[0]));
    assert(parent_walk(parents, goal, (path.len() - 1 - (path.len() - 1)) as nat) == Some(
        path[path.len() - 1],
    ));
}

/// Entries leave the frontier in order: after taking out an entry that no other
/// precedes, nothing left precedes it.
pub proof fn law_pops_come_in_order(frontier: Multiset<FrontierEntry>, e: FrontierEntry, f: FrontierEntry)
    requires
        frontier.count(e) > 0,
        forall|g: FrontierEntry| frontier.count(g) > 0 ==> !entry_precedes(g, e),
        frontier.remove(e).count(f) > 0,
    ensures
        !entry_precedes(f, e),
{
    assert(frontier.count(f) > 0);
}

/// With nothing left in the frontier, no walk leads from `start` to `goal`.
proof fn lemma_empty_frontier_means_unreachable(
    m: GridModel,
    start: GridPosition,
    goal: GridPosition,
    cost: Map<GridPosition, usize>,
    parents: Map<GridPosition, GridPosition>,
    frontier: Multiset<FrontierEntry>,
    filled: nat,
)
    requires
        m.wf(),
        m.is_open(goal),
        search_invariant(m, start, goal, cost, parents, frontier, filled, None),
        frontier.len() == 0,
    ensures
        !reachable(m, start, goal),
{
    reveal(search_invariant);
    assert forall|path: Seq<GridPosition>| !is_path_between(m, path, start, goal) by {
        if is_path_between(m, path, start, goal) {
            lemma_frontier_bounds_walks(m, start, goal, cost, parents, frontier, filled, path, 0);
            assert(frontier.count(entry_for(cost, goal, goal)) > 0);
        }
    }
}

/// When the goal's entry leaves the frontier first, the path read back from the parents
/// is a shortest walk from `start` to `goal`.
proof fn lemma_goal_path_is_shortest(
    m: GridModel,
    start: GridPosition,
    goal: GridPosition,
    cost: Map<GridPosition, usize>,
    parents: Map<GridPosition, GridPosition>,
    frontier: Multiset<FrontierEntry>,
    filled: nat,
    popped: FrontierEntry,
    path: Seq<GridPosition>,
    k: nat,
)
    requires
        m.wf(),
        m.is_open(goal),
        start != goal,
        search_invariant(m, start, goal, cost, parents, frontier, filled, None),
        frontier.count(popped) > 0,
        forall|f: FrontierEntry| frontier.count(f) > 0 ==> !entry_precedes(f, popped),
        popped.position == goal,
        k <= cost[goal],
        parent_walk(parents, goal, k) == Some(start),
        path.len() >= 1,
        parent_walk(parents, goal, (path.len() - 1) as nat) == Some(start),
        forall|j: nat| j < path.len() - 1 ==> #[trigger] parent_walk(parents, goal, j) != Some(start),
        forall|i: int|
            0 <= i < path.len() ==> parent_walk(parents, goal, (path.len() - 1 - i) as nat) == Some(
                #[trigger] path[i],
            ),
    ensures
        is_shortest_path(m, path, start, goal),
        reachable(m, start, goal),
{
    reveal(search_invariant);
    lemma_chain_is_walk(m, start, goal, cost, parents, frontier, filled, None, path);
    assert(path.len() - 1 <= k);
    law_reconstructed_path_ends(parents, start, goal, path);
    assert forall|other: Seq<GridPosition>|
        is_path_between(m, other, start, goal) implies path.len() <= #[trigger] other.len() by {
        lemma_frontier_bounds_walks(m, start, goal, cost, parents, frontier, filled, other, 0);
        if !(cost.contains_key(goal) && cost[goal] <= other.len() - 1) {
            let f = choose|f: FrontierEntry| frontier.count(f) > 0 && f.priority <= other.len() - 1;
            assert(!entry_precedes(f, popped));
        }
    }
    assert(is_path_between(m, path, start, goal));
}

// ------------------------------------------------------------------------------------------
// Planners
// ------------------------------------------------------------------------------------------

/// The error a planner owes for these inputs, or `None` when a walk exists: the start is
/// checked before the goal, bounds before walkability.
pub open spec fn planning_error(m: GridModel, start: GridPosition, goal: GridPosition) -> Option<
    PathPlanningError,
> {
    if !m.in_bounds(start) {
        Some(PathPlanningError::StartOutOfBounds)
    } else if !m.in_bounds(goal) {
        Some(PathPlanningError::GoalOutOfBounds)
    } else if !m.walkable(start) {
        Some(PathPlanningError::StartBlocked)
    } else if !m.walkable(goal) {
        Some(PathPlanningError::GoalBlocked)
    } else if !reachable(m, start, goal) {
        Some(PathPlanningError::NoPathFound)
    } else {
        None
    }
}

/// Something that finds a walk between two cells of a map.
pub trait PathPlanner {
    /// A walk from `start` to `goal`, or why there is none.
    fn plan(&self, map: &GridMap, start: GridPosition, goal: GridPosition) -> (r: Result<
        Vec<GridPosition>,
        PathPlanningError,
    >)
        ensures
            match r {
                Ok(path) => planning_error(map@, start, goal) is None && is_path_between(
                    map@,
                    path@,
                    start,
                    goal,
                ),
                Err(e) => planning_error(map@, start, goal) == Some(e),
            },
    ;
}

/// An A* planner over the four-neighbour grid, guided by the Manhattan distance.
pub struct AStartPlanner;

impl PathPlanner for AStartPlanner {
    #[verifier::spinoff_prover]
    #[verifier::rlimit(30)]
    fn plan(&self, map: &GridMap, start: GridPosition, goal: GridPosition) -> (r: Result<
        Vec<GridPosition>,
        PathPlanningError,
    >)
        ensures
            r is Ok ==> is_shortest_path(map@, r->Ok_0@, start, goal),
            path_result(r) == astar_outcome(map@, start, goal),
    {
        proof {
            use_type_invariant(map);
        }
        let ghost m = map@;
        if !map.in_bounds(start) {
            return Err(PathPlanningError::StartOutOfBounds);
        }
        if !map.in_bounds(goal) {
            return Err(PathPlanningError::GoalOutOfBounds);
        }
        match map.is_walkable(start) {
            Ok(false) => {
                return Err(PathPlanningError::StartBlocked);
            },
            _ => {},
        }
        match map.is_walkable(goal) {
            Ok(false) => {
                return Err(PathPlanningError::GoalBlocked);
            },
            _ => {},
        }
        if start == goal {
            let mut single: Vec<GridPosition> = Vec::new();
            single.push(start);
            proof {
                assert(is_path_between(m, single@, start, goal));
                assert forall|other: Seq<GridPosition>|
                    is_path_between(m, other, start, goal) implies single@.len() <= #[trigger] other.len() by {}
            }
            return Ok(single);
        }
        assert(m.width * m.height <= usize::MAX);

        let mut frontier = Frontier::new();
        frontier.push(FrontierEntry { position: start, priority: 0 });

        let mut came_from: PositionMap<GridPosition> = PositionMap::new(map.width(), map.height());
        let mut cost_so_far: PositionMap<usize> = PositionMap::new(map.width(), map.height());

        cost_so_far.insert(start, 0);

        proof {
            assert((SearchState { cost: cost_so_far@, parents: came_from@, frontier: frontier@ })
                =~= initial_search(start));
            lemma_search_starts(m, start, goal);
        }
        let ghost mut steps: nat = 0;

        loop
            invariant
                m == map@,
                m.wf(),
                m.is_open(start),
                m.is_open(goal),
                start != goal,
                cost_so_far.spec_width() == m.width,
                cost_so_far.spec_height() == m.height,
                came_from.spec_width() == m.width,
                came_from.spec_height() == m.height,
                cost_so_far.filled() <= m.width * m.height,
                search_invariant(
                    m,
                    start,
                    goal,
                    cost_so_far@,
                    came_from@,
                    frontier@,
                    cost_so_far.filled(),
                    None,
                ),
                state_after(m, start, goal, initial_search(start), steps) == Some(
                    (SearchState { cost: cost_so_far@, parents: came_from@, frontier: frontier@ }),
                ),
            decreases
                m.width * m.height - cost_so_far.filled(),
                filled_sum(cost_so_far.slot_values()),
                frontier@.len(),
        {
            let ghost frontier_before = frontier@;
            let ghost cost0 = cost_so_far@;
            let ghost fill0 = cost_so_far.filled();
            let ghost sum0 = filled_sum(cost_so_far.slot_values());
            let ghost parents0 = came_from@;
            let ghost state0 = SearchState { cost: cost0, parents: parents0, frontier: frontier_before };
            match frontier.pop() {
                None => {
                    proof {
                        lemma_empty_frontier_means_unreachable(
                            m,
                            start,
                            goal,
                            cost0,
                            came_from@,
                            frontier_before,
                            fill0,
                        );
                        lemma_step_finishes(m, start, goal, state0, None);
                        lemma_outcome_is_finish(
                            m,
                            start,
                            goal,
                            steps,
                            state0,
                            Err(PathPlanningError::NoPathFound),
                        );
                    }
                    return Err(PathPlanningError::NoPathFound);
                },
                Some(current_entry) => {
                    let current = current_entry.position;
                    proof {
                        lemma_queued_cell(
                            m,
                            start,
                            goal,
                            cost0,
                            came_from@,
                            frontier_before,
                            fill0,
                            current_entry,
                        );
                    }

                    if current == goal {
                        let ghost mut k: nat = 0;
                        proof {
                            k = lemma_chain_to_start(
                                m,
                                start,
                                goal,
                                cost0,
                                came_from@,
                                frontier_before,
                                fill0,
                                None,
                                goal,
                            );
                            assert(parent_walk(came_from@, goal, k) == Some(start));
                        }
                        let result = reconstruct_path(&came_from, start, goal);
                        proof {
                            assert(result is Ok);
                            lemma_goal_path_is_shortest(
                                m,
                                start,
                                goal,
                                cost0,
                                came_from@,
                                frontier_before,
                                fill0,
                                current_entry,
                                result->Ok_0@,
                                k,
                            );
                            lemma_step_finishes(m, start, goal, state0, Some(current_entry));
                            lemma_outcome_is_finish(m, start, goal, steps, state0, path_result(result));
                        }
                        return result;
                    }
                    let ghost rest = SearchState {
                        cost: cost0,
                        parents: parents0,
                        frontier: frontier_before.remove(current_entry),
                    };
                    proof {
                        lemma_step_goes_on(m, start, goal, steps, state0, current_entry);
                        lemma_pop_keeps_invariant(
                            m,
                            start,
                            goal,
                            cost0,
                            came_from@,
                            frontier_before,
                            fill0,
                            current_entry,
                        );
                    }

                    let current_cost: usize = match cost_so_far.get(current) {
                        Some(cost) => cost,
                        None => {
                            proof {
                                steps = steps + 1;
                            }
                            continue;
                        },
                    };

                    let neighbors = match map.neighbors(current) {
                        Ok(neighbors) => neighbors,
                        Err(_) => return Err(PathPlanningError::NoPathFound),
                    };

                    let ghost flen0 = frontier@.len();
                    let mut j: usize = 0;
                    while j < neighbors.len()
                        invariant
                            m == map@,
                            m.wf(),
                            m.is_open(start),
                            m.is_open(goal),
                            start != goal,
                            cost_so_far.spec_width() == m.width,
                            cost_so_far.spec_height() == m.height,
                            came_from.spec_width() == m.width,
                            came_from.spec_height() == m.height,
                            m.in_bounds(current),
                            current != goal,
                            neighbors@ == m.neighbors_of(current),
                            cost_so_far@.contains_key(current),
                            cost_so_far@[current] == current_cost,
                            search_invariant(
                                m,
                                start,
                                goal,
                                cost_so_far@,
                                came_from@,
                                frontier@,
                                cost_so_far.filled(),
                                Some(current),
                            ),
                            j <= neighbors@.len(),
                            forall|k: int|
                                0 <= k < j ==> cost_so_far@.contains_key(#[trigger] neighbors@[k])
                                    && cost_so_far@[neighbors@[k]] <= current_cost + 1,
                            cost_so_far.filled() >= fill0,
                            cost_so_far.filled() == fill0 ==> filled_sum(cost_so_far.slot_values())
                                <= sum0,
                            frontier@.len() >= flen0,
                            frontier@.len() > flen0 ==> (cost_so_far.filled() > fill0 || filled_sum(
                                cost_so_far.slot_values(),
                            ) < sum0),
                            flen0 + 1 == frontier_before.len(),
                            current_cost < fill0,
                            cost_so_far.filled() <= m.width * m.height,
                            fill0 <= m.width * m.height,
                            (SearchState { cost: cost_so_far@, parents: came_from@, frontier: frontier@ })
                                == relax_all(goal, current, current_cost, neighbors@, rest, j as int),
                        decreases neighbors@.len() - j,
                    {
                        let next = neighbors[j];
                        proof {
                            lemma_neighbors_sound(m, current, j as int);
                        }
                        let new_cost: usize = current_cost + 1;

                        let ghost before = SearchState {
                            cost: cost_so_far@,
                            parents: came_from@,
                            frontier: frontier@,
                        };
                        if should_update_cost(&cost_so_far, next, new_cost) {
                            let ghost cost1 = cost_so_far@;
                            let ghost parents1 = came_from@;
                            let ghost frontier1 = frontier@;
                            let ghost fill1 = cost_so_far.filled();
                            let ghost slots1 = cost_so_far.slot_values();
                            cost_so_far.insert(next, new_cost);
                            came_from.insert(next, current);

                            proof {
                                lemma_priority_fits(m, next, goal, new_cost as int);
                            }
                            let priority: usize = new_cost + heuristic(next, goal);

                            frontier.push(FrontierEntry { position: next, priority });
                            proof {
                                lemma_update_keeps_invariant(
                                    m,
                                    start,
                                    goal,
                                    cost1,
                                    parents1,
                                    frontier1,
                                    fill1,
                                    current,
                                    next,
                                    new_cost,
                                    cost_so_far.filled(),
                                );
                                lemma_sum_update(slots1, cost_so_far.slot_of(next), new_cost);
                            }
                        }
                        proof {
                            assert(relax_all(goal, current, current_cost, neighbors@, rest, j + 1)
                                == relax(goal, current, current_cost, before, neighbors@[j as int]));
                            assert((SearchState { cost: cost_so_far@, parents: came_from@, frontier: frontier@ })
                                =~= relax(goal, current, current_cost, before, neighbors@[j as int]));
                        }
                        j = j + 1;
                    }
                    proof {
                        steps = steps + 1;
                    }
                    proof {
                        assert forall|q: GridPosition|
                            #![trigger adjacent(current, q)]
                            m.is_open(q) && adjacent(current, q) implies cost_so_far@.contains_key(q)
                            && cost_so_far@[q] <= cost_so_far@[current] + 1 by {
                            lemma_neighbors_complete(m, current, q);
                            let k = choose|k: int| 0 <= k < neighbors@.len() && neighbors@[k] == q;
                        }
                        assert(settled(m, cost_so_far@, current));
                        lemma_settle(
                            m,
                            start,
                            goal,
                            cost_so_far@,
                            came_from@,
                            frontier@,
                            cost_so_far.filled(),
                            current,
                        );
                    }
                },
            }
        }
    }
}

} // verus!
