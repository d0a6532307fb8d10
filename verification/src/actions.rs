//! Which actions to try on a mesh, which trials to keep, and what must stay as
//! it was.

use std::cmp::Ordering;

use vstd::prelude::*;

use crate::assess::{copy_owner, Assessment, BoundaryEdge};
#[allow(unused_imports)]
use crate::assess::owner_view;
use crate::score::{compare_scores, Action, Entity, PatchScore, Violation};
use crate::sorted::{same_key, Key, SortedMap, SortedSet};
use crate::text::same_text;
use crate::topology::{edge_cells, ordered_pair, Candidate, EdgeKey, PointKey};
#[allow(unused_imports)]
use crate::topology::{cell_known, cells_on_edge, edge_key};
use crate::incidence::next_place;

verus! {

/// Moving the point is something to try.
pub open spec fn moves_point(candidate: Candidate, key: PointKey, action: Action) -> bool {
    let point = candidate.points@[key];
    !point.protected && if point.boundary {
        action matches Action::RelocateBoundary(other, step) && other == key && step < 5
    } else {
        action matches Action::RelocateInterior(other, step) && other == key && step < 4
    }
}

/// The action is something to try on the edge.
pub open spec fn edits_edge(candidate: Candidate, a: PointKey, b: PointKey, action: Action) -> bool {
    let (x, y) = edge_key(a, b);
    &&& !candidate.points@[x].protected
    &&& !candidate.points@[y].protected
    &&& (action == Action::Merge(x, y) || action == Action::Flip(x, y) || action == Action::Split(
        x,
        y,
    ) || action == Action::Collapse(x, y) || moves_point(candidate, x, action) || moves_point(
        candidate,
        y,
        action,
    ))
}

/// The action is something to try on one of the first `count` edges of a ring
/// of points.
pub open spec fn edits_ring(candidate: Candidate, points: Seq<PointKey>, count: int, action: Action) -> bool {
    exists|i: int|
        0 <= i < count && #[trigger] edits_edge(
            candidate,
            points[i],
            points[(i + 1) % (points.len() as int)],
            action,
        )
}

/// The action is something to try against the violation.
pub open spec fn suits(candidate: Candidate, entity: Entity, action: Action) -> bool {
    match entity {
        Entity::Cell(index) => {
            let cell = candidate.cells_view()[index as int];
            &&& index < candidate.cells@.len()
            &&& !cell.protected
            &&& (action == (if cell.points.len() == 4 {
                Action::SplitQuad(index)
            } else {
                Action::Insert(index)
            }) || edits_ring(candidate, cell.points, cell.points.len() as int, action))
        },
        Entity::Edge(a, b) => edits_edge(candidate, a, b, action) || (
        action matches Action::Insert(index) && cells_on_edge(
            candidate.cells_view(),
            a,
            b,
        ).contains(index)),
    }
}

fn is_protected(candidate: &Candidate, key: PointKey) -> (result: bool)
    requires
        candidate.wf(),
        candidate.points@.dom().contains(key),
    ensures
        result == candidate.points@[key].protected,
{
    match candidate.points.get(&key) {
        Some(point) => point.protected,
        None => false,
    }
}

fn add_point_actions(candidate: &Candidate, actions: &mut SortedSet<Action>, key: PointKey)
    requires
        candidate.wf(),
        candidate.points@.dom().contains(key),
        old(actions).wf(),
    ensures
        final(actions).wf(),
        forall|action: Action| #[trigger]
            final(actions)@.contains(action) <==> old(actions)@.contains(action) || moves_point(
                *candidate,
                key,
                action,
            ),
{
    if is_protected(candidate, key) {
        return;
    }
    let boundary = match candidate.points.get(&key) {
        Some(point) => point.boundary,
        None => false,
    };
    let ghost before = actions@;
    let limit: u8 = if boundary {
        5
    } else {
        4
    };
    let mut step: u8 = 0;
    while step < limit
        invariant
            step <= limit,
            limit == (if boundary {
                5u8
            } else {
                4u8
            }),
            actions.wf(),
            forall|action: Action| #[trigger]
                actions@.contains(action) <==> before.contains(action) || (if boundary {
                    action matches Action::RelocateBoundary(other, s) && other == key && s < step
                } else {
                    action matches Action::RelocateInterior(other, s) && other == key && s < step
                }),
        decreases limit - step,
    {
        if boundary {
            actions.insert(Action::RelocateBoundary(key, step));
        } else {
            actions.insert(Action::RelocateInterior(key, step));
        }
        step = step + 1;
    }
}

fn add_edge_actions(candidate: &Candidate, actions: &mut SortedSet<Action>, a: PointKey, b: PointKey)
    requires
        candidate.wf(),
        candidate.points@.dom().contains(a),
        candidate.points@.dom().contains(b),
        old(actions).wf(),
    ensures
        final(actions).wf(),
        forall|action: Action| #[trigger]
            final(actions)@.contains(action) <==> old(actions)@.contains(action) || edits_edge(
                *candidate,
                a,
                b,
                action,
            ),
{
    let (x, y) = ordered_pair(a, b);
    if is_protected(candidate, x) || is_protected(candidate, y) {
        return;
    }
    actions.insert(Action::Merge(x, y));
    actions.insert(Action::Flip(x, y));
    actions.insert(Action::Split(x, y));
    actions.insert(Action::Collapse(x, y));
    add_point_actions(candidate, actions, x);
    add_point_actions(candidate, actions, y);
}

/// The actions to try against a violation, in order.
pub fn actions_for(candidate: &Candidate, entity: Entity) -> (result: SortedSet<Action>)
    requires
        candidate.wf(),
        entity matches Entity::Edge(a, b) ==> candidate.points@.dom().contains(a)
            && candidate.points@.dom().contains(b),
    ensures
        result.wf(),
        forall|action: Action| #[trigger]
            result@.contains(action) <==> suits(*candidate, entity, action),
{
    let mut actions: SortedSet<Action> = SortedSet::new();
    match entity {
        Entity::Cell(index) => {
            if index >= candidate.cells.len() {
                return actions;
            }
            let ghost view = candidate.cells_view()[index as int];
            assert(view == candidate.cells[index as int]@);
            assert(cell_known(candidate.cells_view()[index as int], candidate.points@));
            if candidate.cells[index].protected {
                return actions;
            }
            let points = &candidate.cells[index].points;
            let ghost own = if points@.len() == 4 {
                Action::SplitQuad(index)
            } else {
                Action::Insert(index)
            };
            if points.len() == 4 {
                actions.insert(Action::SplitQuad(index));
            } else {
                actions.insert(Action::Insert(index));
            }
            let mut edge: usize = 0;
            while edge < points.len()
                invariant
                    edge <= points.len(),
                    candidate.wf(),
                    points@ == view.points,
                    cell_known(view, candidate.points@),
                    actions.wf(),
                    forall|action: Action| #[trigger]
                        actions@.contains(action) <==> action == own || edits_ring(
                            *candidate,
                            points@,
                            edge as int,
                            action,
                        ),
                decreases points.len() - edge,
            {
                let ghost before = actions@;
                let next: usize = next_place(edge, points.len());
                assert(candidate.points@.dom().contains(view.points[edge as int]));
                assert(candidate.points@.dom().contains(view.points[next as int]));
                add_edge_actions(candidate, &mut actions, points[edge], points[next]);
                proof {
                    assert forall|action: Action| #[trigger]
                        actions@.contains(action) <==> action == own || edits_ring(
                            *candidate,
                            points@,
                            edge + 1,
                            action,
                        ) by {
                        assert(before.contains(action) <==> action == own || edits_ring(
                            *candidate,
                            points@,
                            edge as int,
                            action,
                        ));
                        if edits_ring(*candidate, points@, edge + 1, action) {
                            let i = choose|i: int|
                                0 <= i < edge + 1 && #[trigger] edits_edge(
                                    *candidate,
                                    points@[i],
                                    points@[(i + 1) % (points@.len() as int)],
                                    action,
                                );
                            if i < edge {
                                assert(edits_ring(*candidate, points@, edge as int, action));
                            }
                        }
                        if edits_edge(
                            *candidate,
                            points@[edge as int],
                            points@[(edge + 1) % (points@.len() as int)],
                            action,
                        ) {
                            assert(edits_ring(*candidate, points@, edge + 1, action));
                        }
                        if edits_ring(*candidate, points@, edge as int, action) {
                            let i = choose|i: int|
                                0 <= i < edge && #[trigger] edits_edge(
                                    *candidate,
                                    points@[i],
                                    points@[(i + 1) % (points@.len() as int)],
                                    action,
                                );
                            assert(edits_ring(*candidate, points@, edge + 1, action));
                        }
                    }
                }
                edge = edge + 1;
            }
        },
        Entity::Edge(a, b) => {
            add_edge_actions(candidate, &mut actions, a, b);
            let owners = edge_cells(&candidate.cells, a, b);
            let mut i: usize = 0;
            while i < owners.len()
                invariant
                    i <= owners.len(),
                    actions.wf(),
                    forall|action: Action| #[trigger]
                        actions@.contains(action) <==> edits_edge(*candidate, a, b, action) || (
                        action matches Action::Insert(index) && owners@.take(i as int).contains(
                            index,
                        )),
                decreases owners.len() - i,
            {
                let ghost before = actions@;
                actions.insert(Action::Insert(owners[i]));
                proof {
                    let short = owners@.take(i as int);
                    let long = owners@.take(i as int + 1);
                    assert forall|action: Action| #[trigger]
                        actions@.contains(action) <==> edits_edge(*candidate, a, b, action) || (
                        action matches Action::Insert(index) && long.contains(index)) by {
                        assert(before.contains(action) <==> edits_edge(*candidate, a, b, action)
                            || (action matches Action::Insert(index) && short.contains(index)));
                        if let Action::Insert(index) = action {
                            if short.contains(index) {
                                let k = short.index_of(index);
                                assert(long[k] == index);
                            }
                            if long.contains(index) && index != owners@[i as int] {
                                let k = long.index_of(index);
                                assert(short[k] == index);
                            }
                            assert(long[i as int] == owners@[i as int]);
                        }
                    }
                }
                i = i + 1;
            }
            assert(owners@.take(i as int) =~= owners@);
        },
    }
    actions
}

/// The search for a better mesh: rounds of trials against one violation each.
pub struct Optimizer {
    pub budget: usize,
    pub trials: usize,
    pub exhausted: SortedSet<Entity>,
    pub entity: Option<Entity>,
    pub queue: Vec<Action>,
    pub next: usize,
    pub best: Option<(Action, PatchScore)>,
}

/// The first violation that has not been given up.
pub open spec fn first_open(violations: Seq<Violation>, exhausted: Set<Entity>, from: int) -> Option<
    Violation,
>
    decreases violations.len() - from,
{
    if from < 0 || from >= violations.len() {
        None
    } else if !exhausted.contains(violations[from].entity) {
        Some(violations[from])
    } else {
        first_open(violations, exhausted, from + 1)
    }
}

/// A trial beats the best one so far: it scores better, or as well with an
/// action that comes first.
pub open spec fn beats(trial: (Action, PatchScore), best: Option<(Action, PatchScore)>) -> bool {
    best matches Some(other) ==> trial.1.before(other.1) || (!other.1.before(trial.1)
        && trial.0.before(other.0))
}

impl Optimizer {
    pub open spec fn wf(self) -> bool {
        self.exhausted.wf() && self.trials <= self.budget && self.next <= self.queue@.len()
    }

    pub fn new(seed_cells: usize, max_cells: u64) -> (result: Optimizer)
        ensures
            result.wf(),
            result.budget == crate::score::trial_budget(
                if seed_cells == 0 {
                    1
                } else {
                    seed_cells
                },
                max_cells,
            ),
            result.trials == 0,
            result.exhausted@ == Set::<Entity>::empty(),
            result.entity is None,
            result.queue@.len() == 0,
            result.best is None,
    {
        let seeds: usize = if seed_cells == 0 {
            1
        } else {
            seed_cells
        };
        Optimizer {
            budget: crate::score::action_budget(seeds, max_cells),
            trials: 0,
            exhausted: SortedSet::new(),
            entity: None,
            queue: Vec::new(),
            next: 0,
            best: None,
        }
    }

    /// The violation to work on next, while trials are left.
    pub fn target(&self, violations: &Vec<Violation>) -> (result: Option<Violation>)
        requires
            self.wf(),
        ensures
            result == (if self.trials < self.budget {
                first_open(violations@, self.exhausted@, 0)
            } else {
                None
            }),
    {
        if self.trials >= self.budget {
            return None;
        }
        let mut i: usize = 0;
        while i < violations.len()
            invariant
                i <= violations.len(),
                self.wf(),
                self.trials < self.budget,
                first_open(violations@, self.exhausted@, 0) == first_open(
                    violations@,
                    self.exhausted@,
                    i as int,
                ),
            decreases violations.len() - i,
        {
            if !self.exhausted.contains(&violations[i].entity) {
                return Some(violations[i]);
            }
            i = i + 1;
        }
        None
    }

    /// Starts a round against one violation.
    pub fn begin(&mut self, entity: Entity, actions: SortedSet<Action>)
        requires
            old(self).wf(),
        ensures
            final(self).wf(),
            final(self).budget == old(self).budget,
            final(self).trials == old(self).trials,
            final(self).exhausted == old(self).exhausted,
            final(self).entity == Some(entity),
            final(self).queue@ == actions.items@,
            final(self).next == 0,
            final(self).best is None,
    {
        self.entity = Some(entity);
        self.queue = actions.items;
        self.next = 0;
        self.best = None;
    }

    /// The next action to try, while the round and the budget last.
    pub fn next_trial(&mut self) -> (result: Option<Action>)
        requires
            old(self).wf(),
        ensures
            final(self).wf(),
            final(self).budget == old(self).budget,
            final(self).exhausted == old(self).exhausted,
            final(self).entity == old(self).entity,
            final(self).queue == old(self).queue,
            final(self).best == old(self).best,
            old(self).trials < old(self).budget && old(self).next < old(self).queue@.len() ==> result
                == Some(old(self).queue@[old(self).next as int]) && final(self).trials == old(
                self,
            ).trials + 1 && final(self).next == old(self).next + 1,
            !(old(self).trials < old(self).budget && old(self).next < old(self).queue@.len())
                ==> result is None && final(self).trials == old(self).trials && final(self).next
                == old(self).next,
    {
        if self.trials >= self.budget || self.next >= self.queue.len() {
            return None;
        }
        let action = self.queue[self.next];
        self.trials = self.trials + 1;
        self.next = self.next + 1;
        Some(action)
    }

    /// Offers a sound trial; true where it becomes the best of the round. It
    /// must score better than the mesh does.
    pub fn offer(&mut self, action: Action, score: &PatchScore, current: &PatchScore) -> (result: bool)
        requires
            old(self).wf(),
        ensures
            final(self).wf(),
            final(self).budget == old(self).budget,
            final(self).trials == old(self).trials,
            final(self).exhausted == old(self).exhausted,
            final(self).entity == old(self).entity,
            final(self).queue == old(self).queue,
            final(self).next == old(self).next,
            result == (score.before(*current) && beats((action, *score), old(self).best)),
            final(self).best == (if result {
                Some((action, *score))
            } else {
                old(self).best
            }),
    {
        match compare_scores(score, current) {
            Ordering::Less => {},
            _ => {
                return false;
            },
        }
        let replace = match &self.best {
            None => true,
            Some((best_action, best_score)) => match compare_scores(score, best_score) {
                Ordering::Less => true,
                Ordering::Greater => {
                    proof {
                        if score.before(*best_score) {
                            PatchScore::transitive(*score, *best_score, *score);
                            PatchScore::irreflexive(*score);
                        }
                    }
                    false
                },
                Ordering::Equal => action.precedes(best_action),
            },
        };
        if replace {
            self.best = Some((action, *score));
        }
        replace
    }

    /// Ends the round. True where a trial is to be installed; then every
    /// violation is open again, else this one is given up.
    pub fn conclude(&mut self) -> (result: bool)
        requires
            old(self).wf(),
            old(self).entity is Some,
        ensures
            final(self).wf(),
            final(self).budget == old(self).budget,
            final(self).trials == old(self).trials,
            final(self).entity is None,
            final(self).best is None,
            result == old(self).best is Some,
            final(self).exhausted@ == (if result {
                Set::<Entity>::empty()
            } else {
                old(self).exhausted@.insert(old(self).entity->0)
            }),
    {
        let improved = self.best.is_some();
        if improved {
            self.exhausted = SortedSet::new();
        } else {
            match self.entity {
                Some(entity) => {
                    self.exhausted.insert(entity);
                },
                None => {},
            }
        }
        self.entity = None;
        self.best = None;
        improved
    }
}

/// No offered trial of a round beats the one that is kept.
pub proof fn kept_trial_is_best(
    first: (Action, PatchScore),
    second: (Action, PatchScore),
    third: (Action, PatchScore),
)
    requires
        !beats(first, Some(second)),
        beats(third, Some(second)),
    ensures
        !beats(first, Some(third)),
{
    PatchScore::total(first.1, second.1);
    PatchScore::total(first.1, third.1);
    PatchScore::total(second.1, third.1);
    Action::total(first.0, second.0);
    Action::total(first.0, third.0);
    if beats(first, Some(third)) {
        if first.1.before(third.1) {
            if third.1.before(second.1) {
                PatchScore::transitive(first.1, third.1, second.1);
            } else {
                assert(third.1 == second.1);
            }
        } else {
            assert(first.1 == third.1);
            if third.1.before(second.1) {
            } else {
                Action::transitive(first.0, third.0, second.0);
            }
        }
    }
}

/// The owner of each boundary edge. Of edges with the same ends the last one
/// counts.
pub open spec fn owners_of(boundary: Seq<BoundaryEdge>) -> Map<EdgeKey, Option<Seq<char>>>
    decreases boundary.len(),
{
    if boundary.len() == 0 {
        Map::empty()
    } else {
        let edge = boundary.last();
        owners_of(boundary.drop_last()).insert(
            edge_key(edge.points[0], edge.points[1]),
            owner_view(edge.owner),
        )
    }
}

/// A map of owners, by what the owners are called.
pub open spec fn named(owners: SortedMap<EdgeKey, Option<String>>) -> Map<EdgeKey, Option<Seq<char>>> {
    owners@.map_values(|owner: Option<String>| owner_view(owner))
}

pub fn boundary_owners(boundary: &Vec<BoundaryEdge>) -> (result: SortedMap<EdgeKey, Option<String>>)
    ensures
        result.wf(),
        named(result) == owners_of(boundary@),
{
    let mut owners: SortedMap<EdgeKey, Option<String>> = SortedMap::new();
    assert(named(owners) =~= Map::<EdgeKey, Option<Seq<char>>>::empty());
    let mut i: usize = 0;
    while i < boundary.len()
        invariant
            i <= boundary.len(),
            owners.wf(),
            named(owners) == owners_of(boundary@.take(i as int)),
        decreases boundary.len() - i,
    {
        let edge = &boundary[i];
        let key = ordered_pair(edge.points[0], edge.points[1]);
        let ghost before = owners;
        let owner = copy_owner(&edge.owner);
        let ghost name = owner_view(owner);
        owners.insert(key, owner);
        proof {
            assert(boundary@.take(i as int + 1).drop_last() =~= boundary@.take(i as int));
            assert(named(owners) =~= named(before).insert(key, name));
        }
        i = i + 1;
    }
    assert(boundary@.take(i as int) =~= boundary@);
    owners
}

pub fn same_owner(a: &Option<String>, b: &Option<String>) -> (result: bool)
    ensures
        result == (owner_view(*a) == owner_view(*b)),
{
    match (a, b) {
        (Some(x), Some(y)) => same_text(x.as_str(), y.as_str()),
        (None, None) => true,
        _ => false,
    }
}

/// Whether two maps of owners are the same.
pub fn same_owners(
    a: &SortedMap<EdgeKey, Option<String>>,
    b: &SortedMap<EdgeKey, Option<String>>,
) -> (result: bool)
    requires
        a.wf(),
        b.wf(),
    ensures
        result == (named(*a) == named(*b)),
{
    proof {
        if named(*a) == named(*b) {
            assert(a@.dom() =~= named(*a).dom());
            assert(b@.dom() =~= named(*b).dom());
            assert forall|k: EdgeKey| a.keys@.to_set().contains(k) == b.keys@.to_set().contains(k) by {
                assert(a.keys@.contains(k) == a@.dom().contains(k));
                assert(b.keys@.contains(k) == b@.dom().contains(k));
            }
            assert(a.keys@.to_set() =~= b.keys@.to_set());
            crate::sorted::increasing_sequence_is_unique(a.keys@, b.keys@);
        }
    }
    if a.keys.len() != b.keys.len() {
        return false;
    }
    let mut i: usize = 0;
    while i < a.keys.len()
        invariant
            i <= a.keys.len(),
            a.wf(),
            b.wf(),
            a.keys.len() == b.keys.len(),
            named(*a) == named(*b) ==> a.keys@ == b.keys@,
            forall|k: int|
                0 <= k < i ==> #[trigger] a.keys[k] == b.keys[k] && owner_view(a.values[k])
                    == owner_view(b.values[k]),
        decreases a.keys.len() - i,
    {
        proof {
            a.entry_at(i as int);
            b.entry_at(i as int);
            if named(*a) == named(*b) {
                assert(named(*a)[a.keys@[i as int]] == named(*b)[a.keys@[i as int]]);
            }
        }
        let alike = same_owner(&a.values[i], &b.values[i]);
        if !same_key(&a.keys[i], &b.keys[i]) || !alike {
            return false;
        }
        assert(a.keys[i as int] == b.keys[i as int]);
        assert(owner_view(a.values[i as int]) == owner_view(b.values[i as int]));
        i = i + 1;
    }
    proof {
        assert(a.keys@ =~= b.keys@);
        assert forall|k: EdgeKey| named(*a).dom().contains(k) implies named(*a)[k] == named(*b)[k] by {
            let p = a.keys@.index_of(k);
            assert(a.keys@[p] == k);
            a.entry_at(p);
            b.entry_at(p);
        }
        assert(named(*a) =~= named(*b));
    }
    true
}

/// The edge ends at one of the points.
pub open spec fn ends_at(edge: EdgeKey, a: PointKey, b: PointKey) -> bool {
    edge.0 == a || edge.1 == a || edge.0 == b || edge.1 == b
}

fn touches(edge: &EdgeKey, a: PointKey, b: PointKey) -> (result: bool)
    ensures
        result == ends_at(*edge, a, b),
{
    same_key(&edge.0, &a) || same_key(&edge.1, &a) || same_key(&edge.0, &b) || same_key(
        &edge.1,
        &b,
    )
}

/// The owners of the edges that end at neither point.
pub open spec fn away_from(
    owners: Map<EdgeKey, Option<Seq<char>>>,
    a: PointKey,
    b: PointKey,
) -> Map<EdgeKey, Option<Seq<char>>> {
    Map::new(|edge: EdgeKey| owners.dom().contains(edge) && !ends_at(edge, a, b), |edge: EdgeKey| owners[edge])
}

/// The edges that end at one of the points.
pub open spec fn edges_at(owners: Map<EdgeKey, Option<Seq<char>>>, a: PointKey, b: PointKey) -> Set<
    EdgeKey,
> {
    owners.dom().filter(|edge: EdgeKey| ends_at(edge, a, b))
}

/// Every edge at one of the points has that owner.
pub open spec fn owned_alike(
    owners: Map<EdgeKey, Option<Seq<char>>>,
    a: PointKey,
    b: PointKey,
    owner: Option<Seq<char>>,
) -> bool {
    forall|edge: EdgeKey| #[trigger]
        owners.dom().contains(edge) && ends_at(edge, a, b) ==> owners[edge] == owner
}

/// An action must not change who owns the boundary. A split boundary edge
/// passes its owner on to both halves; a collapsed one may go only where the
/// edges around it have one owner, and one edge is lost.
pub open spec fn ownership_kept(
    action: Action,
    inserted: PointKey,
    before: Map<EdgeKey, Option<Seq<char>>>,
    after: Map<EdgeKey, Option<Seq<char>>>,
) -> bool {
    match action {
        Action::Split(a, b) if before.dom().contains(edge_key(a, b)) => {
            let edge = edge_key(a, b);
            let one = edge_key(a, inserted);
            let two = edge_key(inserted, b);
            &&& after.dom().contains(one)
            &&& after[one] == before[edge]
            &&& after.remove(one).dom().contains(two)
            &&& after[two] == before[edge]
            &&& before.remove(edge) == after.remove(one).remove(two)
        },
        Action::Collapse(a, b) if before.dom().contains(edge_key(a, b)) => {
            let edge = edge_key(a, b);
            let keep = edge.0;
            &&& owned_alike(before, a, b, before[edge])
            &&& owned_alike(after, keep, keep, before[edge])
            &&& edges_at(after, keep, keep).len() + 1 == edges_at(before, a, b).len()
            &&& away_from(before, a, b) == away_from(after, keep, keep)
        },
        _ => before == after,
    }
}

/// The number of edges at one of the points.
fn count_at(owners: &SortedMap<EdgeKey, Option<String>>, a: PointKey, b: PointKey) -> (result: usize)
    requires
        owners.wf(),
    ensures
        result == edges_at(named(*owners), a, b).len(),
        result <= owners.keys.len(),
        edges_at(named(*owners), a, b).finite(),
{
    let mut count: usize = 0;
    let mut i: usize = 0;
    let ghost pick = |edge: EdgeKey| ends_at(edge, a, b);
    proof {
        assert(owners.keys@.take(0).to_set().filter(pick) =~= Set::<EdgeKey>::empty());
        crate::sorted::increasing_has_no_duplicates(owners.keys@);
    }
    while i < owners.keys.len()
        invariant
            i <= owners.keys.len(),
            owners.keys@.no_duplicates(),
            count <= i,
            pick == |edge: EdgeKey| ends_at(edge, a, b),
            owners.keys@.take(i as int).to_set().filter(pick).finite(),
            count == owners.keys@.take(i as int).to_set().filter(pick).len(),
        decreases owners.keys.len() - i,
    {
        proof {
            let short = owners.keys@.take(i as int);
            let long = owners.keys@.take(i as int + 1);
            let edge = owners.keys@[i as int];
            assert(long =~= short.push(edge));
            short.lemma_push_to_set_commute(edge);
            assert(!short.contains(edge)) by {
                if short.contains(edge) {
                    let k = short.index_of(edge);
                    assert(owners.keys@[k] == edge);
                }
            }
            if pick(edge) {
                assert(long.to_set().filter(pick) =~= short.to_set().filter(pick).insert(edge));
            } else {
                assert(long.to_set().filter(pick) =~= short.to_set().filter(pick));
            }
        }
        if touches(&owners.keys[i], a, b) {
            count = count + 1;
        }
        i = i + 1;
    }
    proof {
        assert(owners.keys@.take(i as int) =~= owners.keys@);
        assert(edges_at(named(*owners), a, b) =~= owners.keys@.to_set().filter(pick));
    }
    count
}

/// Whether every edge at one of the points has that owner.
fn all_owned_by(
    owners: &SortedMap<EdgeKey, Option<String>>,
    a: PointKey,
    b: PointKey,
    owner: &Option<String>,
) -> (result: bool)
    requires
        owners.wf(),
    ensures
        result == owned_alike(named(*owners), a, b, owner_view(*owner)),
{
    let mut i: usize = 0;
    while i < owners.keys.len()
        invariant
            i <= owners.keys.len(),
            owners.wf(),
            forall|k: int|
                0 <= k < i && ends_at(#[trigger] owners.keys[k], a, b) ==> owner_view(
                    owners.values[k],
                ) == owner_view(*owner),
        decreases owners.keys.len() - i,
    {
        if touches(&owners.keys[i], a, b) && !same_owner(&owners.values[i], owner) {
            proof {
                owners.entry_at(i as int);
                assert(named(*owners).dom().contains(owners.keys@[i as int]));
            }
            return false;
        }
        i = i + 1;
    }
    proof {
        assert forall|edge: EdgeKey| #[trigger]
            named(*owners).dom().contains(edge) && ends_at(edge, a, b) implies named(*owners)[edge]
            == owner_view(*owner) by {
            let k = owners.keys@.index_of(edge);
            assert(owners.keys@[k] == edge);
            owners.entry_at(k);
        }
    }
    true
}

/// Takes every edge at one of the points out.
fn keep_away(owners: SortedMap<EdgeKey, Option<String>>, a: PointKey, b: PointKey) -> (result: SortedMap<
    EdgeKey,
    Option<String>,
>)
    requires
        owners.wf(),
    ensures
        result.wf(),
        named(result) == away_from(named(owners), a, b),
{
    let mut rest: SortedMap<EdgeKey, Option<String>> = SortedMap::new();
    let mut i: usize = 0;
    while i < owners.keys.len()
        invariant
            i <= owners.keys.len(),
            owners.wf(),
            rest.wf(),
            forall|edge: EdgeKey| #[trigger]
                named(rest).dom().contains(edge) <==> owners.keys@.take(i as int).contains(edge)
                    && !ends_at(edge, a, b),
            forall|edge: EdgeKey| #[trigger]
                named(rest).dom().contains(edge) ==> named(rest)[edge] == named(owners)[edge],
        decreases owners.keys.len() - i,
    {
        let ghost before = rest;
        let key = owners.keys[i];
        if !touches(&key, a, b) {
            rest.insert(key, copy_owner(&owners.values[i]));
        }
        proof {
            owners.entry_at(i as int);
            let short = owners.keys@.take(i as int);
            let long = owners.keys@.take(i as int + 1);
            assert forall|edge: EdgeKey| #[trigger]
                named(rest).dom().contains(edge) <==> long.contains(edge) && !ends_at(
                    edge,
                    a,
                    b,
                ) by {
                assert(named(before).dom().contains(edge) <==> short.contains(edge) && !ends_at(
                    edge,
                    a,
                    b,
                ));
                if short.contains(edge) {
                    let k = short.index_of(edge);
                    assert(long[k] == edge);
                }
                if long.contains(edge) && edge != key {
                    let k = long.index_of(edge);
                    assert(short[k] == edge);
                }
                assert(long[i as int] == key);
            }
            assert forall|edge: EdgeKey| #[trigger]
                named(rest).dom().contains(edge) implies named(rest)[edge] == named(
                owners,
            )[edge] by {
                if edge != key {
                    assert(named(before).dom().contains(edge));
                }
            }
        }
        i = i + 1;
    }
    proof {
        assert(owners.keys@.take(i as int) =~= owners.keys@);
        assert(named(rest) =~= away_from(named(owners), a, b));
    }
    rest
}

/// Whether merging triangles into quads is kept: nothing is left to refine, the
/// boundary is owned as before, and the mesh scores better.
pub fn merge_kept(tried: &Assessment, held: &Assessment) -> (result: bool)
    ensures
        result == (tried.refine.items@.len() == 0 && owners_of(tried.boundary@) == owners_of(
            held.boundary@,
        ) && tried.score.before(held.score)),
{
    let before = boundary_owners(&held.boundary);
    let after = boundary_owners(&tried.boundary);
    tried.refine.items.len() == 0 && same_owners(&after, &before) && tried.score.precedes(
        &held.score,
    )
}

/// Whether an action left the ownership of the boundary as it must be.
pub fn boundary_ownership_preserved(
    action: Action,
    next_inserted: u64,
    before: &Assessment,
    after: &Assessment,
) -> (result: bool)
    ensures
        result == ownership_kept(
            action,
            PointKey::Inserted(next_inserted),
            owners_of(before.boundary@),
            owners_of(after.boundary@),
        ),
{
    let mut old_owners = boundary_owners(&before.boundary);
    let mut new_owners = boundary_owners(&after.boundary);
    let ghost old_map = named(old_owners);
    let ghost new_map = named(new_owners);
    match action {
        Action::Split(a, b) => {
            let edge = ordered_pair(a, b);
            let owner = match old_owners.get(&edge) {
                Some(value) => Some(copy_owner(value)),
                None => None,
            };
            if let Some(owner) = owner {
                let inserted = PointKey::Inserted(next_inserted);
                let one = ordered_pair(a, inserted);
                let two = ordered_pair(inserted, b);
                let first = match new_owners.get(&one) {
                    Some(value) => same_owner(value, &owner),
                    None => false,
                };
                if !first {
                    return false;
                }
                new_owners.remove(&one);
                assert(named(new_owners) =~= new_map.remove(one));
                let second = match new_owners.get(&two) {
                    Some(value) => same_owner(value, &owner),
                    None => false,
                };
                if !second {
                    return false;
                }
                new_owners.remove(&two);
                assert(named(new_owners) =~= new_map.remove(one).remove(two));
                old_owners.remove(&edge);
                assert(named(old_owners) =~= old_map.remove(edge));
                return same_owners(&old_owners, &new_owners);
            }
        },
        Action::Collapse(a, b) => {
            let edge = ordered_pair(a, b);
            let owner = match old_owners.get(&edge) {
                Some(value) => Some(copy_owner(value)),
                None => None,
            };
            if let Some(owner) = owner {
                let keep = edge.0;
                if !all_owned_by(&old_owners, a, b, &owner) || !all_owned_by(
                    &new_owners,
                    keep,
                    keep,
                    &owner,
                ) {
                    return false;
                }
                let old_count: usize = count_at(&old_owners, a, b);
                let new_count: usize = count_at(&new_owners, keep, keep);
                if new_count >= old_count || new_count + 1 != old_count {
                    return false;
                }
                let old_rest = keep_away(old_owners, a, b);
                let new_rest = keep_away(new_owners, keep, keep);
                return same_owners(&old_rest, &new_rest);
            }
        },
        _ => {},
    }
    same_owners(&old_owners, &new_owners)
}

/// An untouched mesh keeps its boundary's owners, whatever was tried, unless
/// the action should have changed the boundary.
pub proof fn unchanged_boundary_is_kept(
    action: Action,
    inserted: PointKey,
    owners: Map<EdgeKey, Option<Seq<char>>>,
)
    requires
        !(action is Split),
        !(action is Collapse),
    ensures
        ownership_kept(action, inserted, owners, owners),
{
}

/// The violation that is taken up is the first that was not given up.
pub proof fn first_open_is_first(violations: Seq<Violation>, exhausted: Set<Entity>, from: int)
    requires
        0 <= from <= violations.len(),
    ensures
        match first_open(violations, exhausted, from) {
            Some(violation) => exists|i: int|
                from <= i < violations.len() && #[trigger] violations[i] == violation
                    && !exhausted.contains(violation.entity) && forall|k: int|
                    from <= k < i ==> exhausted.contains((#[trigger] violations[k]).entity),
            None => forall|k: int|
                from <= k < violations.len() ==> exhausted.contains((#[trigger] violations[k]).entity),
        },
    decreases violations.len() - from,
{
    if from < violations.len() {
        first_open_is_first(violations, exhausted, from + 1);
        assert(violations[from] == violations[from]);
        if exhausted.contains(violations[from].entity) {
            if let Some(violation) = first_open(violations, exhausted, from + 1) {
                let i = choose|i: int|
                    from + 1 <= i < violations.len() && #[trigger] violations[i] == violation
                        && !exhausted.contains(violation.entity) && forall|k: int|
                        from + 1 <= k < i ==> exhausted.contains((#[trigger] violations[k]).entity);
                assert(violations[i] == violation);
            }
        }
    }
}

/// The boundary edge at a place joins the ends of the edge.
pub open spec fn joins_at(boundary: Seq<BoundaryEdge>, place: int, edge: EdgeKey) -> bool {
    edge_key(boundary[place].points[0], boundary[place].points[1]) == edge
}

/// The owner of an edge is that of the last boundary edge with its ends.
pub proof fn last_owner_counts(boundary: Seq<BoundaryEdge>, edge: EdgeKey, place: int)
    requires
        0 <= place < boundary.len(),
        joins_at(boundary, place, edge),
        forall|k: int| place < k < boundary.len() ==> !#[trigger] joins_at(boundary, k, edge),
    ensures
        owners_of(boundary).dom().contains(edge),
        owners_of(boundary)[edge] == owner_view(boundary[place].owner),
    decreases boundary.len(),
{
    let front = boundary.drop_last();
    let n = front.len() as int;
    if place < n {
        assert(joins_at(front, place, edge));
        assert(!joins_at(boundary, n, edge));
        assert forall|k: int| place < k < front.len() implies !#[trigger] joins_at(
            front,
            k,
            edge,
        ) by {
            assert(!joins_at(boundary, k, edge));
        }
        last_owner_counts(front, edge, place);
    }
}

/// An edge that is not on the boundary has no owner.
pub proof fn inner_edge_has_no_owner(boundary: Seq<BoundaryEdge>, edge: EdgeKey)
    requires
        forall|k: int| 0 <= k < boundary.len() ==> !#[trigger] joins_at(boundary, k, edge),
    ensures
        !owners_of(boundary).dom().contains(edge),
    decreases boundary.len(),
{
    if boundary.len() > 0 {
        let front = boundary.drop_last();
        assert(!joins_at(boundary, front.len() as int, edge));
        assert forall|k: int| 0 <= k < front.len() implies !#[trigger] joins_at(
            front,
            k,
            edge,
        ) by {
            assert(!joins_at(boundary, k, edge));
        }
        inner_edge_has_no_owner(front, edge);
    }
}

/// No edit that is tried moves, removes or joins a point that must stay, a point on the
/// boundary is only moved along it, and none is tried on a cell that must stay.
pub proof fn tried_edits_spare_the_fixed(candidate: Candidate, entity: Entity, action: Action)
    requires
        suits(candidate, entity, action),
    ensures
        match action {
            Action::Merge(a, b) => !candidate.points@[a].protected && !candidate.points@[b].protected,
            Action::Flip(a, b) => !candidate.points@[a].protected && !candidate.points@[b].protected,
            Action::Split(a, b) => !candidate.points@[a].protected && !candidate.points@[b].protected,
            Action::Collapse(a, b) => !candidate.points@[a].protected
                && !candidate.points@[b].protected,
            Action::RelocateInterior(key, step) => !candidate.points@[key].protected
                && !candidate.points@[key].boundary && step < 4,
            Action::RelocateBoundary(key, step) => !candidate.points@[key].protected
                && candidate.points@[key].boundary && step < 5,
            Action::SplitQuad(index) => entity == Entity::Cell(index) && index
                < candidate.cells@.len() && !candidate.cells_view()[index as int].protected
                && candidate.cells_view()[index as int].points.len() == 4,
            Action::Insert(index) => entity matches Entity::Cell(place) ==> place == index && index
                < candidate.cells@.len() && !candidate.cells_view()[index as int].protected
                && candidate.cells_view()[index as int].points.len() != 4,
        },
{
}

/// The edits of points and edges that are tried against a poor cell touch only its own corners,
/// and those against an edge only its ends.
pub proof fn tried_edits_stay_near(candidate: Candidate, entity: Entity, action: Action)
    requires
        suits(candidate, entity, action),
    ensures
        match action {
            Action::Merge(a, b) => near(candidate, entity, a) && near(candidate, entity, b),
            Action::Flip(a, b) => near(candidate, entity, a) && near(candidate, entity, b),
            Action::Split(a, b) => near(candidate, entity, a) && near(candidate, entity, b),
            Action::Collapse(a, b) => near(candidate, entity, a) && near(candidate, entity, b),
            Action::RelocateInterior(key, step) => near(candidate, entity, key),
            Action::RelocateBoundary(key, step) => near(candidate, entity, key),
            _ => true,
        },
{
    match entity {
        Entity::Cell(index) => {
            let points = candidate.cells_view()[index as int].points;
            if edits_ring(candidate, points, points.len() as int, action) {
                let i = choose|i: int|
                    0 <= i < points.len() && #[trigger] edits_edge(
                        candidate,
                        points[i],
                        points[(i + 1) % (points.len() as int)],
                        action,
                    );
                let j = (i + 1) % (points.len() as int);
                assert(0 <= j < points.len()) by (nonlinear_arith)
                    requires
                        0 <= i < points.len(),
                        j == (i + 1) % (points.len() as int),
                ;
                assert(points.contains(points[i]) && points.contains(points[j]));
            }
        },
        Entity::Edge(a, b) => {},
    }
}

/// The point is a corner of the cell, or an end of the edge.
pub open spec fn near(candidate: Candidate, entity: Entity, key: PointKey) -> bool {
    match entity {
        Entity::Cell(index) => candidate.cells_view()[index as int].points.contains(key),
        Entity::Edge(a, b) => key == a || key == b,
    }
}

} // verus!
