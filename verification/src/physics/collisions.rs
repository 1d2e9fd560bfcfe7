use vstd::prelude::*;

use crate::body::Body;
use crate::body::BodyId;
use crate::body::BodyState;
use crate::body::OrbitalBodies;
use crate::body::Registry;
use crate::scalar::Scalar;
use crate::scalar::Vector;

verus! {

broadcast use vstd::std_specs::hash::group_hash_axioms;

/// Every pair of two members, each pair once, the member that comes first in
/// `members` first in the pair. The pairs of the first member come first, in
/// the order of their second members, then those of the second, and so on.
pub open spec fn pairs_within(members: Seq<BodyId>) -> Seq<(BodyId, BodyId)>
    decreases members.len(),
{
    if members.len() == 0 {
        Seq::empty()
    } else {
        members.drop_first().map_values(|other: BodyId| (members[0], other)) + pairs_within(
            members.drop_first(),
        )
    }
}

/// The pairs within each bin, bin after bin.
pub open spec fn pairs_in_bins(bins: Seq<Seq<BodyId>>) -> Seq<(BodyId, BodyId)>
    decreases bins.len(),
{
    if bins.len() == 0 {
        Seq::empty()
    } else {
        pairs_in_bins(bins.drop_last()) + pairs_within(bins.last())
    }
}

/// The pairs among the members of one bin that are examined for a collision:
/// all of them, each once.
pub fn candidate_pairs_of_slice(members: &Vec<BodyId>) -> (pairs: Vec<(BodyId, BodyId)>)
    ensures
        pairs@ == pairs_within(members@),
{
    let mut pairs: Vec<(BodyId, BodyId)> = Vec::new();
    let n = members.len();
    let mut i: usize = 0;
    assert(members@.skip(0) =~= members@);
    while i < n
        invariant
            n == members.len(),
            0 <= i <= n,
            pairs@ + pairs_within(members@.skip(i as int)) == pairs_within(members@),
        decreases n - i,
    {
        let ghost rest = members@.skip(i as int);
        let ghost before = pairs@;
        let first = members[i];
        let mut j: usize = i + 1;
        assert(rest.drop_first() =~= members@.skip(i + 1));
        assert(rest[0] == first);
        while j < n
            invariant
                n == members.len(),
                0 <= i < j <= n,
                first == members@[i as int],
                pairs@ == before + members@.skip(i + 1).take(j - i - 1).map_values(
                    |other: BodyId| (first, other),
                ),
            decreases n - j,
        {
            pairs.push((first, members[j]));
            assert(members@.skip(i + 1).take(j + 1 - i - 1).map_values(
                |other: BodyId| (first, other),
            ) =~= members@.skip(i + 1).take(j - i - 1).map_values(
                |other: BodyId| (first, other),
            ).push((first, members@[j as int])));
            j = j + 1;
        }
        proof {
            let tail = members@.skip(i + 1);
            assert(tail.take(n - i - 1) =~= tail);
            assert(pairs_within(rest) == tail.map_values(|other: BodyId| (rest[0], other))
                + pairs_within(tail));
            assert(pairs@ + pairs_within(tail) =~= before + pairs_within(rest));
        }
        i = i + 1;
    }
    assert(members@.skip(n as int) =~= Seq::<BodyId>::empty());
    assert(pairs@ + Seq::<(BodyId, BodyId)>::empty() =~= pairs@);
    pairs
}

/// The pairs that a pass over the bins examines: those within each bin, and
/// none across two bins.
pub fn candidate_pairs_of_bins(bins: &Vec<Vec<BodyId>>) -> (pairs: Vec<(BodyId, BodyId)>)
    ensures
        pairs@ == pairs_in_bins(bins@.map_values(|bin: Vec<BodyId>| bin@)),
{
    let ghost all = bins@.map_values(|bin: Vec<BodyId>| bin@);
    let mut pairs: Vec<(BodyId, BodyId)> = Vec::new();
    let mut k: usize = 0;
    assert(all.take(0) =~= Seq::<Seq<BodyId>>::empty());
    while k < bins.len()
        invariant
            0 <= k <= bins.len(),
            all == bins@.map_values(|bin: Vec<BodyId>| bin@),
            pairs@ == pairs_in_bins(all.take(k as int)),
        decreases bins.len() - k,
    {
        let mut within = candidate_pairs_of_slice(&bins[k]);
        pairs.append(&mut within);
        proof {
            assert(all.take(k + 1).drop_last() =~= all.take(k as int));
            assert(all.take(k + 1).last() == bins@[k as int]@);
        }
        k = k + 1;
    }
    assert(all.take(bins.len() as int) =~= all);
    pairs
}

/// Where a body falls on the grid: the column and the row of its offset
/// position, counted in bin widths from the lower edge of the grid.
#[derive(Clone, Copy, Debug, PartialEq, Eq, Structural)]
pub struct Cell {
    pub id: BodyId,
    pub column: usize,
    pub row: usize,
}

/// A coordinate held to the grid: a body at or past the upper edge belongs
/// to the last column or row.
pub open spec fn clamped(coordinate: usize, bin_count: usize) -> int {
    if coordinate < bin_count {
        coordinate as int
    } else {
        bin_count - 1
    }
}

/// The bin of a cell on a grid of `bin_count` columns and as many rows, the
/// bins counted row after row.
pub open spec fn bin_of(cell: Cell, bin_count: usize) -> int {
    clamped(cell.column, bin_count) + clamped(cell.row, bin_count) * bin_count
}

/// The bodies of `cells` that fall into bin `bin`, in the order of `cells`.
pub open spec fn bin_members(cells: Seq<Cell>, bin_count: usize, bin: int) -> Seq<BodyId> {
    cells.filter(|cell: Cell| bin_of(cell, bin_count) == bin).map_values(|cell: Cell| cell.id)
}

/// The grid with each body of `cells` in its bin.
pub open spec fn binned(cells: Seq<Cell>, bin_count: usize) -> Seq<Seq<BodyId>> {
    Seq::new((bin_count * bin_count) as nat, |bin: int| bin_members(cells, bin_count, bin))
}

/// The bin of a cell is one of the bins of the grid.
proof fn lemma_bin_in_grid(cell: Cell, bin_count: usize)
    requires
        bin_count > 0,
    ensures
        0 <= bin_of(cell, bin_count) < bin_count * bin_count,
{
    let c = clamped(cell.column, bin_count);
    let r = clamped(cell.row, bin_count);
    assert(0 <= r * bin_count) by (nonlinear_arith)
        requires
            0 <= r,
            0 < bin_count,
    ;
    assert(r * bin_count + bin_count <= bin_count * bin_count) by (nonlinear_arith)
        requires
            0 <= r <= bin_count - 1,
            0 < bin_count,
    ;
}

/// The last cell adds its body to the members of its own bin, and to those
/// of no other.
proof fn lemma_bin_members_step(cells: Seq<Cell>, bin_count: usize, bin: int)
    requires
        cells.len() > 0,
    ensures
        bin_members(cells, bin_count, bin) == if bin_of(cells.last(), bin_count) == bin {
            bin_members(cells.drop_last(), bin_count, bin).push(cells.last().id)
        } else {
            bin_members(cells.drop_last(), bin_count, bin)
        },
{
    reveal(Seq::filter);
    let keep = |cell: Cell| bin_of(cell, bin_count) == bin;
    if bin_of(cells.last(), bin_count) == bin {
        assert(cells.filter(keep) == cells.drop_last().filter(keep).push(cells.last()));
        assert(cells.drop_last().filter(keep).push(cells.last()).map_values(
            |cell: Cell| cell.id,
        ) =~= cells.drop_last().filter(keep).map_values(|cell: Cell| cell.id).push(
            cells.last().id,
        ));
    } else {
        assert(cells.filter(keep) == cells.drop_last().filter(keep));
    }
}

/// Sorts the bodies into the bins of a square grid of `bin_count` columns and
/// rows. A grid without columns has no bins and takes no body.
pub fn bin_bodies(cells: &Vec<Cell>, bin_count: usize) -> (bins: Vec<Vec<BodyId>>)
    requires
        bin_count * bin_count <= usize::MAX,
    ensures
        bins.len() == bin_count * bin_count,
        bins@.map_values(|bin: Vec<BodyId>| bin@) == binned(cells@, bin_count),
{
    let total: usize = bin_count * bin_count;
    let mut bins: Vec<Vec<BodyId>> = Vec::new();
    let mut k: usize = 0;
    while k < total
        invariant
            0 <= k <= total,
            bins.len() == k,
            forall|b: int| 0 <= b < k ==> (#[trigger] bins@[b])@ == Seq::<BodyId>::empty(),
        decreases total - k,
    {
        bins.push(Vec::new());
        k = k + 1;
    }
    if total > 0 {
        assert(bin_count > 0) by (nonlinear_arith)
            requires
                bin_count * bin_count > 0,
        ;
        let mut i: usize = 0;
        assert forall|b: int| 0 <= b < total implies (#[trigger] bins@[b])@ == bin_members(
            cells@.take(0),
            bin_count,
            b,
        ) by {
            reveal(Seq::filter);
            assert(cells@.take(0) =~= Seq::<Cell>::empty());
        }
        while i < cells.len()
            invariant
                0 <= i <= cells.len(),
                bin_count > 0,
                total == bin_count * bin_count,
                bins.len() == total,
                forall|b: int|
                    0 <= b < total ==> (#[trigger] bins@[b])@ == bin_members(
                        cells@.take(i as int),
                        bin_count,
                        b,
                    ),
            decreases cells.len() - i,
        {
            let cell = cells[i];
            let column: usize = if cell.column < bin_count {
                cell.column
            } else {
                bin_count - 1
            };
            let row: usize = if cell.row < bin_count {
                cell.row
            } else {
                bin_count - 1
            };
            proof {
                lemma_bin_in_grid(cell, bin_count);
            }
            let index: usize = column + row * bin_count;
            let ghost before = bins@;
            bins[index].push(cell.id);
            proof {
                assert(cells@.take(i + 1).drop_last() =~= cells@.take(i as int));
                assert(cells@.take(i + 1).last() == cell);
                assert forall|b: int| 0 <= b < total implies (#[trigger] bins@[b])@
                    == bin_members(cells@.take(i + 1), bin_count, b) by {
                    lemma_bin_members_step(cells@.take(i + 1), bin_count, b);
                    if b != index {
                        assert(bins@[b] == before[b]);
                    }
                }
            }
            i = i + 1;
        }
        assert(cells@.take(cells.len() as int) =~= cells@);
    }
    assert(bins@.map_values(|bin: Vec<BodyId>| bin@) =~= binned(cells@, bin_count));
    bins
}

/// What the survivor of a collision becomes: the mass of both bodies, and the
/// velocity that keeps their momentum.
#[derive(Clone, Copy, Debug, PartialEq, Eq)]
pub struct Merger {
    pub mass: Scalar,
    pub velocity: Vector,
}

/// Two bodies that were found to touch, with what the survivor becomes.
#[derive(Clone, Copy, Debug, PartialEq, Eq)]
pub struct Contact {
    pub first: BodyId,
    pub second: BodyId,
    pub merged: Merger,
}

/// An instruction that a collision leaves for the collection of bodies.
#[derive(Clone, Copy, Debug, PartialEq, Eq)]
pub enum CollisionResult {
    /// The body takes a new mass and a new velocity.
    Merge { body_id: BodyId, new_mass: Scalar, new_velocity: Vector },
    /// The body leaves the simulation.
    Destroyed { body_id: BodyId },
}

/// Whether the results hold the destruction of `id`.
pub open spec fn destroys(collisions: Seq<CollisionResult>, id: BodyId) -> bool {
    collisions.contains(CollisionResult::Destroyed { body_id: id })
}

/// The survivor of a collision of two bodies: the first where it is the
/// heavier, the second where it is the heavier or the masses do not differ.
pub open spec fn survivor(body1: BodyState, body2: BodyState) -> BodyId {
    if body1.mass.spec_gt(body2.mass) {
        body1.id
    } else {
        body2.id
    }
}

/// The body that a collision of two bodies destroys: the one that does not
/// survive it.
pub open spec fn casualty(body1: BodyState, body2: BodyState) -> BodyId {
    if body1.mass.spec_gt(body2.mass) {
        body2.id
    } else {
        body1.id
    }
}

/// The results after one more collision: the destruction of the casualty,
/// unless the results hold it already, and then the merge into the survivor.
pub open spec fn with_collision(
    collisions: Seq<CollisionResult>,
    body1: BodyState,
    body2: BodyState,
    merged: Merger,
) -> Seq<CollisionResult> {
    let lost = casualty(body1, body2);
    let merge = CollisionResult::Merge {
        body_id: survivor(body1, body2),
        new_mass: merged.mass,
        new_velocity: merged.velocity,
    };
    if destroys(collisions, lost) {
        collisions.push(merge)
    } else {
        collisions.push(CollisionResult::Destroyed { body_id: lost }).push(merge)
    }
}

/// Whether two identities name bodies that may collide: they differ, the
/// collection keeps a body under each, and one of the two at least is a
/// primary body. Secondary bodies do not collide with one another.
pub open spec fn may_collide(bodies: Registry, first: BodyId, second: BodyId) -> bool {
    &&& first != second
    &&& bodies.contains(first)
    &&& bodies.contains(second)
    &&& (bodies.tier0.contains_key(first) || bodies.tier0.contains_key(second))
}

/// Whether a contact counts as a collision: it is one of two bodies that may
/// collide.
pub open spec fn counts(bodies: Registry, contact: Contact) -> bool {
    may_collide(bodies, contact.first, contact.second)
}

/// Whether the two bodies of a pair may collide.
fn pair_may_collide(orbital_bodies: &OrbitalBodies, first: BodyId, second: BodyId) -> (may: bool)
    ensures
        may == may_collide(orbital_bodies@, first, second),
{
    if first == second {
        return false;
    }
    let first_primary = orbital_bodies.tier0.contains_key(&first);
    let second_primary = orbital_bodies.tier0.contains_key(&second);
    if !first_primary && !second_primary {
        return false;
    }
    (first_primary || orbital_bodies.tier1.contains_key(&first)) && (second_primary
        || orbital_bodies.tier1.contains_key(&second))
}

/// Keeps, in their order, the pairs of two bodies that may collide, so that
/// no other pair need be measured.
pub fn pairs_that_may_collide(orbital_bodies: &OrbitalBodies, pairs: &Vec<(BodyId, BodyId)>) -> (kept:
    Vec<(BodyId, BodyId)>)
    ensures
        kept@ == pairs@.filter(
            |pair: (BodyId, BodyId)| may_collide(orbital_bodies@, pair.0, pair.1),
        ),
{
    let ghost keep = |pair: (BodyId, BodyId)| may_collide(orbital_bodies@, pair.0, pair.1);
    let mut kept: Vec<(BodyId, BodyId)> = Vec::new();
    let mut i: usize = 0;
    proof {
        reveal(Seq::filter);
        assert(pairs@.take(0) =~= Seq::<(BodyId, BodyId)>::empty());
    }
    while i < pairs.len()
        invariant
            0 <= i <= pairs.len(),
            keep == (|pair: (BodyId, BodyId)| may_collide(orbital_bodies@, pair.0, pair.1)),
            kept@ == pairs@.take(i as int).filter(keep),
        decreases pairs.len() - i,
    {
        let (first, second) = pairs[i];
        proof {
            reveal(Seq::filter);
            assert(pairs@.take(i + 1).drop_last() =~= pairs@.take(i as int));
            assert(pairs@.take(i + 1).last() == pairs@[i as int]);
        }
        if pair_may_collide(orbital_bodies, first, second) {
            kept.push((first, second));
        }
        i = i + 1;
    }
    assert(pairs@.take(pairs.len() as int) =~= pairs@);
    kept
}

/// The results after one more contact.
pub open spec fn with_contact(
    collisions: Seq<CollisionResult>,
    bodies: Registry,
    contact: Contact,
) -> Seq<CollisionResult> {
    if counts(bodies, contact) {
        with_collision(
            collisions,
            bodies.lookup(contact.first)->0,
            bodies.lookup(contact.second)->0,
            contact.merged,
        )
    } else {
        collisions
    }
}

/// The results of the contacts, taken in their order.
pub open spec fn outcomes(bodies: Registry, contacts: Seq<Contact>) -> Seq<CollisionResult>
    decreases contacts.len(),
{
    if contacts.len() == 0 {
        Seq::empty()
    } else {
        with_contact(outcomes(bodies, contacts.drop_last()), bodies, contacts.last())
    }
}

/// Whether the results hold the destruction of `id`.
fn is_destroyed(collisions: &Vec<CollisionResult>, id: BodyId) -> (found: bool)
    ensures
        found == destroys(collisions@, id),
{
    let mut i: usize = 0;
    while i < collisions.len()
        invariant
            0 <= i <= collisions.len(),
            forall|k: int|
                0 <= k < i ==> #[trigger] collisions@[k] != (CollisionResult::Destroyed {
                    body_id: id,
                }),
        decreases collisions.len() - i,
    {
        match collisions[i] {
            CollisionResult::Destroyed { body_id } => {
                if body_id == id {
                    assert(collisions@[i as int] == CollisionResult::Destroyed { body_id: id });
                    return true;
                }
            },
            CollisionResult::Merge { .. } => {},
        }
        i = i + 1;
    }
    false
}

/// Records the collision of two bodies that touch: the lighter one is
/// destroyed, the heavier one takes the merged mass and velocity.
pub fn append_collision(
    body1: &Body,
    body2: &Body,
    merged: Merger,
    collisions: &mut Vec<CollisionResult>,
)
    ensures
        final(collisions)@ == with_collision(old(collisions)@, body1@, body2@, merged),
{
    let (largest, smallest) = if body1.mass.gt(body2.mass) {
        (body1, body2)
    } else {
        (body2, body1)
    };
    if !is_destroyed(collisions, smallest.id()) {
        collisions.push(CollisionResult::Destroyed { body_id: smallest.id() });
    }
    collisions.push(
        CollisionResult::Merge {
            body_id: largest.id(),
            new_mass: merged.mass,
            new_velocity: merged.velocity,
        },
    );
}

/// The results of the contacts that were found among the bodies.
pub fn compute_collisions(orbital_bodies: &OrbitalBodies, contacts: &Vec<Contact>) -> (collisions:
    Vec<CollisionResult>)
    ensures
        collisions@ == outcomes(orbital_bodies@, contacts@),
{
    let mut collisions: Vec<CollisionResult> = Vec::new();
    let mut i: usize = 0;
    assert(contacts@.take(0) =~= Seq::<Contact>::empty());
    while i < contacts.len()
        invariant
            0 <= i <= contacts.len(),
            collisions@ == outcomes(orbital_bodies@, contacts@.take(i as int)),
        decreases contacts.len() - i,
    {
        let contact = contacts[i];
        proof {
            assert(contacts@.take(i + 1).drop_last() =~= contacts@.take(i as int));
            assert(contacts@.take(i + 1).last() == contact);
        }
        if pair_may_collide(orbital_bodies, contact.first, contact.second) {
            match orbital_bodies.get_by_id(contact.first) {
                Some(body1) => {
                    match orbital_bodies.get_by_id(contact.second) {
                        Some(body2) => {
                            append_collision(body1, body2, contact.merged, &mut collisions);
                        },
                        None => {},
                    }
                },
                None => {},
            }
        }
        i = i + 1;
    }
    assert(contacts@.take(contacts.len() as int) =~= contacts@);
    collisions
}

/// The collection after one result. A merge changes the body that it names,
/// unless that body is gone or fixed; a destruction takes the body away.
pub open spec fn applied_one(bodies: Registry, collision: CollisionResult) -> Registry {
    match collision {
        CollisionResult::Merge { body_id, new_mass, new_velocity } => {
            match bodies.lookup(body_id) {
                Some(body) => if body.fixed {
                    bodies
                } else {
                    bodies.replace(body_id, body.merged(new_mass, new_velocity))
                },
                None => bodies,
            }
        },
        CollisionResult::Destroyed { body_id } => bodies.remove(body_id),
    }
}

/// The collection after the results, taken in their order.
pub open spec fn applied(bodies: Registry, collisions: Seq<CollisionResult>) -> Registry
    decreases collisions.len(),
{
    if collisions.len() == 0 {
        bodies
    } else {
        applied_one(applied(bodies, collisions.drop_last()), collisions.last())
    }
}

/// Carries the results out on the collection of bodies.
pub fn apply_collisions(orbital_bodies: &mut OrbitalBodies, collisions: &Vec<CollisionResult>)
    ensures
        final(orbital_bodies)@ == applied(old(orbital_bodies)@, collisions@),
{
    let mut i: usize = 0;
    assert(collisions@.take(0) =~= Seq::<CollisionResult>::empty());
    while i < collisions.len()
        invariant
            0 <= i <= collisions.len(),
            orbital_bodies@ == applied(old(orbital_bodies)@, collisions@.take(i as int)),
        decreases collisions.len() - i,
    {
        proof {
            assert(collisions@.take(i + 1).drop_last() =~= collisions@.take(i as int));
            assert(collisions@.take(i + 1).last() == collisions@[i as int]);
        }
        match collisions[i] {
            CollisionResult::Merge { body_id, new_mass, new_velocity } => {
                let ghost before = orbital_bodies@;
                match orbital_bodies.get_mut_by_id(body_id) {
                    Some(body) => {
                        if !body.fixed {
                            body.mass = new_mass;
                            body.velocity = new_velocity;
                        }
                    },
                    None => {},
                }
                proof {
                    if before.lookup(body_id) is Some {
                        before.lemma_replace_same(body_id);
                    }
                }
            },
            CollisionResult::Destroyed { body_id } => {
                orbital_bodies.remove(body_id);
            },
        }
        i = i + 1;
    }
    assert(collisions@.take(collisions.len() as int) =~= collisions@);
}

/// Handles the collisions of one tick: works out what the contacts lead to,
/// and carries it out on the collection of bodies.
pub fn handle_collisions(orbital_bodies: &mut OrbitalBodies, contacts: &Vec<Contact>)
    ensures
        final(orbital_bodies)@ == applied(
            old(orbital_bodies)@,
            outcomes(old(orbital_bodies)@, contacts@),
        ),
{
    let collisions = compute_collisions(orbital_bodies, contacts);
    apply_collisions(orbital_bodies, &collisions);
}

/// A pair is examined exactly where its first body comes before its second
/// among the members.
pub proof fn lemma_pairs_within_contains(members: Seq<BodyId>, first: BodyId, second: BodyId)
    ensures
        pairs_within(members).contains((first, second)) <==> exists|i: int, j: int|
            0 <= i < j < members.len() && members[i] == first && members[j] == second,
    decreases members.len(),
{
    if members.len() == 0 {
    } else {
        let rest = members.drop_first();
        let head = rest.map_values(|other: BodyId| (members[0], other));
        let tail = pairs_within(rest);
        lemma_pairs_within_contains(rest, first, second);
        if pairs_within(members).contains((first, second)) {
            let at = choose|at: int|
                0 <= at < (head + tail).len() && (head + tail)[at] == (first, second);
            if at < head.len() {
                assert(head[at] == (members[0], rest[at]));
                assert(members[at + 1] == second);
            } else {
                assert(tail[at - head.len()] == (first, second));
                assert(tail.contains((first, second)));
                let (i, j) = choose|i: int, j: int|
                    0 <= i < j < rest.len() && rest[i] == first && rest[j] == second;
                assert(members[i + 1] == first && members[j + 1] == second);
            }
        }
        if exists|i: int, j: int|
            0 <= i < j < members.len() && members[i] == first && members[j] == second {
            let (i, j) = choose|i: int, j: int|
                0 <= i < j < members.len() && members[i] == first && members[j] == second;
            if i == 0 {
                assert(head[j - 1] == (first, second));
                assert((head + tail)[j - 1] == (first, second));
            } else {
                assert(rest[i - 1] == first && rest[j - 1] == second);
                assert(tail.contains((first, second)));
                let at = choose|at: int| 0 <= at < tail.len() && tail[at] == (first, second);
                assert((head + tail)[head.len() + at] == (first, second));
            }
        }
    }
}

/// Among members that all differ, no pair is examined twice.
pub proof fn lemma_pairs_within_no_duplicates(members: Seq<BodyId>)
    requires
        members.no_duplicates(),
    ensures
        pairs_within(members).no_duplicates(),
    decreases members.len(),
{
    if members.len() == 0 {
    } else {
        let rest = members.drop_first();
        let head = rest.map_values(|other: BodyId| (members[0], other));
        let tail = pairs_within(rest);
        lemma_pairs_within_no_duplicates(rest);
        assert forall|x: int, y: int|
            0 <= x < (head + tail).len() && 0 <= y < (head + tail).len() && x != y implies (head
            + tail)[x] != (head + tail)[y] by {
            if x < head.len() && y < head.len() {
                assert(rest[x] != rest[y]);
            } else if x >= head.len() && y >= head.len() {
                assert(tail[x - head.len()] != tail[y - head.len()]);
            } else {
                let (inner, outer) = if x < head.len() {
                    (x, y)
                } else {
                    (y, x)
                };
                let pair = tail[outer - head.len()];
                assert(tail.contains(pair));
                lemma_pairs_within_contains(rest, pair.0, pair.1);
                assert(pair.0 != members[0]);
            }
        }
    }
}

/// Among members that all differ, a pass examines every two of them once:
/// in one direction, never in both, and no member with itself.
pub proof fn lemma_every_pair_once(members: Seq<BodyId>, i: int, j: int)
    requires
        members.no_duplicates(),
        0 <= i < j < members.len(),
    ensures
        pairs_within(members).no_duplicates(),
        pairs_within(members).contains((members[i], members[j])),
        !pairs_within(members).contains((members[j], members[i])),
        !pairs_within(members).contains((members[i], members[i])),
{
    lemma_pairs_within_no_duplicates(members);
    lemma_pairs_within_contains(members, members[i], members[j]);
    lemma_pairs_within_contains(members, members[j], members[i]);
    lemma_pairs_within_contains(members, members[i], members[i]);
}

/// Where every cell falls into one bin, that bin has all the bodies, in
/// their order, and every other bin has none.
proof fn lemma_bin_members_all(cells: Seq<Cell>, bin_count: usize, bin: int)
    requires
        forall|i: int| 0 <= i < cells.len() ==> bin_of(#[trigger] cells[i], bin_count) == bin,
    ensures
        bin_members(cells, bin_count, bin) == cells.map_values(|cell: Cell| cell.id),
        forall|other: int|
            other != bin ==> #[trigger] bin_members(cells, bin_count, other) == Seq::<
                BodyId,
            >::empty(),
    decreases cells.len(),
{
    reveal(Seq::filter);
    if cells.len() == 0 {
        assert(bin_members(cells, bin_count, bin) =~= cells.map_values(|cell: Cell| cell.id));
        assert forall|other: int| other != bin implies #[trigger] bin_members(
            cells,
            bin_count,
            other,
        ) == Seq::<BodyId>::empty() by {
            assert(bin_members(cells, bin_count, other) =~= Seq::<BodyId>::empty());
        }
    } else {
        let rest = cells.drop_last();
        assert forall|i: int| 0 <= i < rest.len() implies bin_of(#[trigger] rest[i], bin_count)
            == bin by {
            assert(rest[i] == cells[i]);
        }
        lemma_bin_members_all(rest, bin_count, bin);
        lemma_bin_members_step(cells, bin_count, bin);
        assert(bin_of(cells.last(), bin_count) == bin) by {
            assert(cells.last() == cells[cells.len() - 1]);
        }
        assert(rest.map_values(|cell: Cell| cell.id).push(cells.last().id) =~= cells.map_values(
            |cell: Cell| cell.id,
        ));
        assert forall|other: int| other != bin implies #[trigger] bin_members(
            cells,
            bin_count,
            other,
        ) == Seq::<BodyId>::empty() by {
            lemma_bin_members_step(cells, bin_count, other);
        }
    }
}

/// Where one bin at most has members, the pairs of all bins are the pairs of
/// that bin.
proof fn lemma_pairs_in_one_bin(bins: Seq<Seq<BodyId>>, bin: int)
    requires
        forall|other: int|
            0 <= other < bins.len() && other != bin ==> #[trigger] bins[other] == Seq::<
                BodyId,
            >::empty(),
    ensures
        pairs_in_bins(bins) == if 0 <= bin < bins.len() {
            pairs_within(bins[bin])
        } else {
            Seq::empty()
        },
    decreases bins.len(),
{
    if bins.len() == 0 {
    } else {
        let rest = bins.drop_last();
        assert forall|other: int| 0 <= other < rest.len() && other != bin implies #[trigger] rest[other]
            == Seq::<BodyId>::empty() by {
            assert(rest[other] == bins[other]);
        }
        lemma_pairs_in_one_bin(rest, bin);
        if bin == bins.len() - 1 {
            assert(pairs_in_bins(rest) + pairs_within(bins.last()) =~= pairs_within(bins[bin]));
        } else {
            assert(bins.last() == bins[bins.len() - 1]);
            assert(pairs_within(bins.last()) =~= Seq::<(BodyId, BodyId)>::empty());
            if 0 <= bin < bins.len() {
                assert(rest[bin] == bins[bin]);
                assert(pairs_in_bins(rest) + pairs_within(bins.last()) =~= pairs_within(
                    bins[bin],
                ));
            } else {
                assert(pairs_in_bins(rest) + pairs_within(bins.last()) =~= Seq::<
                    (BodyId, BodyId),
                >::empty());
            }
        }
    }
}

/// Where all bodies fall into one bin, the pass over the bins examines the
/// very pairs that a pass over all of the bodies examines, in the same order.
pub proof fn lemma_one_bin_is_exhaustive(cells: Seq<Cell>, bin_count: usize)
    requires
        bin_count > 0,
        forall|i: int, j: int|
            0 <= i < cells.len() && 0 <= j < cells.len() ==> bin_of(cells[i], bin_count)
                == bin_of(cells[j], bin_count),
    ensures
        pairs_in_bins(binned(cells, bin_count)) == pairs_within(
            cells.map_values(|cell: Cell| cell.id),
        ),
{
    let bins = binned(cells, bin_count);
    if cells.len() == 0 {
        assert forall|other: int| 0 <= other < bins.len() implies #[trigger] bins[other]
            == Seq::<BodyId>::empty() by {
            lemma_bin_members_all(cells, bin_count, -1);
        }
        lemma_pairs_in_one_bin(bins, -1);
        assert(cells.map_values(|cell: Cell| cell.id) =~= Seq::<BodyId>::empty());
    } else {
        let bin = bin_of(cells[0], bin_count);
        lemma_bin_in_grid(cells[0], bin_count);
        lemma_bin_members_all(cells, bin_count, bin);
        lemma_pairs_in_one_bin(bins, bin);
    }
}

/// On a grid with bins, every body is in the bin of its cell, and that bin is
/// one of the grid. A body that is named once is in no other bin.
pub proof fn lemma_each_body_in_its_bin(cells: Seq<Cell>, bin_count: usize, i: int)
    requires
        bin_count > 0,
        0 <= i < cells.len(),
    ensures
        0 <= bin_of(cells[i], bin_count) < binned(cells, bin_count).len(),
        binned(cells, bin_count)[bin_of(cells[i], bin_count)].contains(cells[i].id),
        forall|other: int|
            0 <= other < binned(cells, bin_count).len() && other != bin_of(cells[i], bin_count)
                && (forall|k: int| 0 <= k < cells.len() && k != i ==> (#[trigger] cells[k]).id
                != cells[i].id) ==> !(#[trigger] binned(cells, bin_count)[other]).contains(
                cells[i].id,
            ),
{
    broadcast use vstd::seq_lib::group_filter_ensures;

    let bin = bin_of(cells[i], bin_count);
    lemma_bin_in_grid(cells[i], bin_count);
    let keep = |cell: Cell| bin_of(cell, bin_count) == bin;
    assert(cells.filter(keep).contains(cells[i]));
    let at = choose|at: int| 0 <= at < cells.filter(keep).len() && cells.filter(keep)[at] == cells[i];
    assert(bin_members(cells, bin_count, bin)[at] == cells[i].id);
    assert forall|other: int|
        0 <= other < binned(cells, bin_count).len() && other != bin && (forall|k: int|
            0 <= k < cells.len() && k != i ==> (#[trigger] cells[k]).id
                != cells[i].id) implies !(#[trigger] binned(cells, bin_count)[other]).contains(
        cells[i].id,
    ) by {
        let there = |cell: Cell| bin_of(cell, bin_count) == other;
        let members = bin_members(cells, bin_count, other);
        if members.contains(cells[i].id) {
            let m = choose|m: int| 0 <= m < members.len() && members[m] == cells[i].id;
            let cell = cells.filter(there)[m];
            assert(cells.filter(there).contains(cell));
            cells.lemma_filter_contains_rev(there, cell);
            let k = choose|k: int| 0 <= k < cells.len() && cells[k] == cell;
            assert(cells[k].id == cells[i].id);
            assert(k != i);
        }
    }
}

/// The survivor of a collision is never the lighter of the two bodies.
pub proof fn lemma_survivor_is_not_lighter(body1: BodyState, body2: BodyState)
    requires
        body1.id != body2.id,
    ensures
        survivor(body1, body2) != casualty(body1, body2),
        survivor(body1, body2) == body1.id ==> !body2.mass.spec_gt(body1.mass),
        survivor(body1, body2) == body2.id ==> !body1.mass.spec_gt(body2.mass),
{
    crate::scalar::lemma_gt_is_strict(body1.mass, body2.mass);
}

/// A contact of two secondary bodies leads to nothing.
pub proof fn lemma_secondaries_do_not_collide(
    collisions: Seq<CollisionResult>,
    bodies: Registry,
    contact: Contact,
)
    requires
        !bodies.tier0.contains_key(contact.first),
        !bodies.tier0.contains_key(contact.second),
    ensures
        !may_collide(bodies, contact.first, contact.second),
        with_contact(collisions, bodies, contact) == collisions,
{
}

/// Whether no identity is destroyed twice in the results.
pub open spec fn destroyed_once(collisions: Seq<CollisionResult>) -> bool {
    forall|i: int, j: int|
        0 <= i < j < collisions.len() && collisions[i] is Destroyed && collisions[j] is Destroyed
            ==> collisions[i]->Destroyed_body_id != collisions[j]->Destroyed_body_id
}

/// However many collisions a body loses in one tick, its destruction is
/// recorded once.
pub proof fn lemma_destroyed_once(bodies: Registry, contacts: Seq<Contact>)
    ensures
        destroyed_once(outcomes(bodies, contacts)),
    decreases contacts.len(),
{
    if contacts.len() == 0 {
    } else {
        let before = outcomes(bodies, contacts.drop_last());
        let after = outcomes(bodies, contacts);
        lemma_destroyed_once(bodies, contacts.drop_last());
        assert forall|i: int, j: int|
            0 <= i < j < after.len() && after[i] is Destroyed && after[j] is Destroyed implies after[i]->Destroyed_body_id
            != after[j]->Destroyed_body_id by {
            if after != before {
                if j < before.len() {
                    assert(after[i] == before[i] && after[j] == before[j]);
                } else {
                    assert(j == before.len());
                    assert(after[i] == before[i]);
                    assert(before.contains(before[i]));
                }
            }
        }
    }
}

/// A collision of two bodies of a well-formed collection, carried out alone:
/// the casualty is gone, the survivor has the merged mass and velocity and is
/// otherwise as it was (a fixed survivor is as it was altogether), and no
/// other body has changed.
pub proof fn lemma_collision_merges(bodies: Registry, contact: Contact, other: BodyId)
    requires
        bodies.wf(),
        counts(bodies, contact),
    ensures
        ({
            let body1 = bodies.lookup(contact.first)->0;
            let body2 = bodies.lookup(contact.second)->0;
            let winner = bodies.lookup(survivor(body1, body2))->0;
            let after = applied(bodies, outcomes(bodies, seq![contact]));
            &&& after.wf()
            &&& after.lookup(casualty(body1, body2)) is None
            &&& after.lookup(survivor(body1, body2)) == Some(
                if winner.fixed {
                    winner
                } else {
                    winner.merged(contact.merged.mass, contact.merged.velocity)
                },
            )
            &&& other != contact.first && other != contact.second ==> after.lookup(other)
                == bodies.lookup(other)
        }),
{
    let body1 = bodies.lookup(contact.first)->0;
    let body2 = bodies.lookup(contact.second)->0;
    let lost = casualty(body1, body2);
    let won = survivor(body1, body2);
    let winner = bodies.lookup(won)->0;
    let destroy = CollisionResult::Destroyed { body_id: lost };
    let merge = CollisionResult::Merge {
        body_id: won,
        new_mass: contact.merged.mass,
        new_velocity: contact.merged.velocity,
    };
    let contacts = seq![contact];
    assert(contacts.drop_last() =~= Seq::<Contact>::empty());
    assert(contacts.last() == contact);
    let results = outcomes(bodies, contacts);
    assert(outcomes(bodies, contacts.drop_last()) =~= Seq::<CollisionResult>::empty());
    assert(results =~= seq![destroy, merge]);
    assert(results.drop_last() =~= seq![destroy]);
    assert(results.drop_last().drop_last() =~= Seq::<CollisionResult>::empty());
    assert(results.drop_last().last() == destroy);
    assert(results.last() == merge);
    let halfway = bodies.remove(lost);
    assert(applied(bodies, results.drop_last().drop_last()) == bodies);
    assert(applied(bodies, results.drop_last()) == applied_one(bodies, destroy));
    assert(applied(bodies, results) == applied_one(halfway, merge));
    bodies.lemma_remove_keeps_wf(lost);
    bodies.lemma_removed_is_gone(lost, won);
    bodies.lemma_removed_is_gone(lost, other);
    let done = winner.merged(contact.merged.mass, contact.merged.velocity);
    halfway.lemma_replace_keeps_wf(won, done);
    halfway.lemma_replace_lookup(won, done, lost);
    halfway.lemma_replace_lookup(won, done, other);
}

/// No result moves a body to another tier: a tier keeps a body after the
/// results only under an identity under which it kept one before.
pub proof fn lemma_applied_keeps_tiers(
    bodies: Registry,
    collisions: Seq<CollisionResult>,
    id: BodyId,
)
    ensures
        applied(bodies, collisions).tier0.contains_key(id) ==> bodies.tier0.contains_key(id),
        applied(bodies, collisions).tier1.contains_key(id) ==> bodies.tier1.contains_key(id),
    decreases collisions.len(),
{
    if collisions.len() > 0 {
        lemma_applied_keeps_tiers(bodies, collisions.drop_last(), id);
    }
}

/// No result brings a body in: an identity that finds no body before the
/// results are carried out finds none after, so that a merge into a body
/// that was destroyed before it in the batch changes nothing.
pub proof fn lemma_destroyed_stays_gone(
    bodies: Registry,
    collisions: Seq<CollisionResult>,
    id: BodyId,
)
    requires
        !bodies.contains(id),
    ensures
        !applied(bodies, collisions).contains(id),
    decreases collisions.len(),
{
    if collisions.len() > 0 {
        lemma_destroyed_stays_gone(bodies, collisions.drop_last(), id);
        let before = applied(bodies, collisions.drop_last());
        match collisions.last() {
            CollisionResult::Merge { body_id, new_mass, new_velocity } => {
                if before.contains(body_id) {
                    before.lemma_replace_lookup(
                        body_id,
                        before.lookup(body_id)->0.merged(new_mass, new_velocity),
                        id,
                    );
                }
            },
            CollisionResult::Destroyed { body_id } => {},
        }
    }
}

/// A well-formed collection is well formed after the results are carried
/// out.
pub proof fn lemma_applied_keeps_wf(bodies: Registry, collisions: Seq<CollisionResult>)
    requires
        bodies.wf(),
    ensures
        applied(bodies, collisions).wf(),
    decreases collisions.len(),
{
    if collisions.len() > 0 {
        lemma_applied_keeps_wf(bodies, collisions.drop_last());
        let before = applied(bodies, collisions.drop_last());
        match collisions.last() {
            CollisionResult::Merge { body_id, new_mass, new_velocity } => {
                if before.contains(body_id) {
                    before.lemma_replace_keeps_wf(
                        body_id,
                        before.lookup(body_id)->0.merged(new_mass, new_velocity),
                    );
                }
            },
            CollisionResult::Destroyed { body_id } => {
                before.lemma_remove_keeps_wf(body_id);
            },
        }
    }
}

} // verus!
