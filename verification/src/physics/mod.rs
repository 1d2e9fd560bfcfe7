pub mod collisions;
pub mod euler;
pub mod leapfrog;

use std::collections::HashMap;
use vstd::prelude::*;

use crate::body::keys_of;
use crate::body::names;
use crate::body::states;
use crate::body::Body;
use crate::body::BodyId;
use crate::body::BodyState;
use crate::body::OrbitalBodies;
use crate::body::Registry;
use crate::physics::collisions::candidate_pairs_of_slice;
use crate::physics::collisions::pairs_within;
use crate::scalar::Vector;

verus! {

broadcast use vstd::std_specs::hash::group_hash_axioms;

/// A scheme that advances the bodies by one time step. The library knows each
/// scheme by its name; the arithmetic of a step is its caller's.
pub trait Kinematics {
    /// The name of the scheme, character by character.
    spec fn label(&self) -> Seq<char>;

    /// The name under which the scheme is shown and chosen.
    fn name(&self) -> (name: &'static str)
        ensures
            name@ == self.label(),
    ;
}

/// The bodies of a tier that are free to move: those that are not fixed.
pub open spec fn free(tier: Map<BodyId, BodyState>) -> Set<BodyId> {
    Set::new(|id: BodyId| tier.contains_key(id) && !tier[id].fixed)
}

/// The bodies that pull on the primary body `id`: every other primary body;
/// none, where the body is fixed.
pub open spec fn pulling_on_primary(bodies: Registry, id: BodyId) -> Set<BodyId> {
    if bodies.tier0[id].fixed {
        Set::empty()
    } else {
        bodies.tier0.dom().remove(id)
    }
}

/// The bodies that pull on the secondary body `id`: every primary body; none,
/// where the body is fixed. No secondary body pulls on anything.
pub open spec fn pulling_on_secondary(bodies: Registry, id: BodyId) -> Set<BodyId> {
    if bodies.tier1[id].fixed {
        Set::empty()
    } else {
        bodies.tier0.dom()
    }
}

/// One body with the primary bodies that pull on it.
pub struct Pull {
    pub pullee: BodyId,
    pub pulling: Vec<BodyId>,
}

/// For each body of the collection, the bodies whose pull its acceleration
/// sums up.
pub struct AccelerationPlan {
    /// The pulls on the primary bodies.
    pub tier0: Vec<Pull>,
    /// The pulls on the secondary bodies.
    pub tier1: Vec<Pull>,
}

impl AccelerationPlan {
    /// Whether the plan is the plan of `bodies`: each body of a tier is the
    /// pullee of one pull of that tier, and each pull names, once each, the
    /// bodies that pull on its pullee.
    pub open spec fn plans(self, bodies: Registry) -> bool {
        &&& names(self.tier0@.map_values(|pull: Pull| pull.pullee), bodies.tier0.dom())
        &&& names(self.tier1@.map_values(|pull: Pull| pull.pullee), bodies.tier1.dom())
        &&& forall|i: int|
            0 <= i < self.tier0.len() ==> names(
                (#[trigger] self.tier0[i]).pulling@,
                pulling_on_primary(bodies, self.tier0[i].pullee),
            )
        &&& forall|i: int|
            0 <= i < self.tier1.len() ==> names(
                (#[trigger] self.tier1[i]).pulling@,
                pulling_on_secondary(bodies, self.tier1[i].pullee),
            )
    }
}

/// Whether `chosen` holds, once each and in their order, the keys before
/// place `upto` that `keep` accepts.
spec fn chosen_upto(
    chosen: Seq<BodyId>,
    keys: Seq<BodyId>,
    upto: int,
    keep: spec_fn(BodyId) -> bool,
) -> bool {
    &&& chosen.no_duplicates()
    &&& forall|key: BodyId|
        chosen.contains(key) <==> (exists|k: int| 0 <= k < upto && #[trigger] keys[k] == key)
            && keep(key)
}

/// One more key: it joins the chosen ones where `keep` accepts it.
proof fn lemma_chosen_step(
    chosen: Seq<BodyId>,
    keys: Seq<BodyId>,
    upto: int,
    keep: spec_fn(BodyId) -> bool,
)
    requires
        0 <= upto < keys.len(),
        keys.no_duplicates(),
        chosen_upto(chosen, keys, upto, keep),
    ensures
        keep(keys[upto]) ==> chosen_upto(chosen.push(keys[upto]), keys, upto + 1, keep),
        !keep(keys[upto]) ==> chosen_upto(chosen, keys, upto + 1, keep),
{
    let next = keys[upto];
    if keep(next) {
        let after = chosen.push(next);
        assert(!chosen.contains(next));
        assert forall|key: BodyId| after.contains(key) <==> (exists|k: int|
            0 <= k < upto + 1 && #[trigger] keys[k] == key) && keep(key) by {
            if after.contains(key) {
                let at = choose|at: int| 0 <= at < after.len() && after[at] == key;
                if at < chosen.len() {
                    assert(chosen[at] == key);
                    assert(chosen.contains(key));
                    let k = choose|k: int| 0 <= k < upto && #[trigger] keys[k] == key;
                    assert(keys[k] == key);
                } else {
                    assert(keys[upto] == key);
                }
            }
            if (exists|k: int| 0 <= k < upto + 1 && #[trigger] keys[k] == key) && keep(key) {
                let k = choose|k: int| 0 <= k < upto + 1 && #[trigger] keys[k] == key;
                if k < upto {
                    assert(chosen.contains(key));
                    let at = choose|at: int| 0 <= at < chosen.len() && chosen[at] == key;
                    assert(after[at] == key);
                } else {
                    assert(after[chosen.len() as int] == key);
                }
            }
        }
    } else {
        assert forall|key: BodyId| chosen.contains(key) <==> (exists|k: int|
            0 <= k < upto + 1 && #[trigger] keys[k] == key) && keep(key) by {
            if chosen.contains(key) {
                let k = choose|k: int| 0 <= k < upto && #[trigger] keys[k] == key;
                assert(keys[k] == key);
            }
            if (exists|k: int| 0 <= k < upto + 1 && #[trigger] keys[k] == key) && keep(key) {
                let k = choose|k: int| 0 <= k < upto + 1 && #[trigger] keys[k] == key;
                assert(k < upto);
            }
        }
    }
}

/// Once every key was seen, the chosen ones name the keys that `keep`
/// accepts.
proof fn lemma_chosen_all(chosen: Seq<BodyId>, keys: Seq<BodyId>, keep: spec_fn(BodyId) -> bool)
    requires
        chosen_upto(chosen, keys, keys.len() as int, keep),
    ensures
        names(chosen, keys.to_set().filter(keep)),
{
    assert forall|key: BodyId| chosen.to_set().contains(key) <==> keys.to_set().filter(
        keep,
    ).contains(key) by {
        if keys.contains(key) {
            let k = choose|k: int| 0 <= k < keys.len() && keys[k] == key;
            assert(keys[k] == key);
        }
    }
    assert(chosen.to_set() =~= keys.to_set().filter(keep));
}

/// A copy of `keys` without `id`.
fn without(keys: &Vec<BodyId>, id: BodyId) -> (others: Vec<BodyId>)
    requires
        keys@.no_duplicates(),
    ensures
        names(others@, keys@.to_set().remove(id)),
{
    let ghost keep = |key: BodyId| key != id;
    let mut others: Vec<BodyId> = Vec::new();
    let mut i: usize = 0;
    while i < keys.len()
        invariant
            0 <= i <= keys.len(),
            keys@.no_duplicates(),
            keep == (|key: BodyId| key != id),
            chosen_upto(others@, keys@, i as int, keep),
        decreases keys.len() - i,
    {
        proof {
            lemma_chosen_step(others@, keys@, i as int, keep);
        }
        let key = keys[i];
        if key != id {
            others.push(key);
        }
        i = i + 1;
    }
    proof {
        lemma_chosen_all(others@, keys@, keep);
        assert(keys@.to_set().filter(keep) =~= keys@.to_set().remove(id));
    }
    others
}

/// The bodies of one tier that are not fixed, each once.
fn free_keys(tier: &HashMap<BodyId, Body>) -> (keys: Vec<BodyId>)
    ensures
        names(keys@, free(states(tier@))),
{
    let all = keys_of(tier);
    let ghost keep = |key: BodyId| !states(tier@)[key].fixed;
    let mut keys: Vec<BodyId> = Vec::new();
    let mut i: usize = 0;
    while i < all.len()
        invariant
            0 <= i <= all.len(),
            names(all@, states(tier@).dom()),
            keep == (|key: BodyId| !states(tier@)[key].fixed),
            chosen_upto(keys@, all@, i as int, keep),
        decreases all.len() - i,
    {
        proof {
            lemma_chosen_step(keys@, all@, i as int, keep);
            assert(all@.to_set().contains(all@[i as int]));
        }
        let key = all[i];
        let fixed = match tier.get(&key) {
            Some(body) => body.fixed,
            None => true,
        };
        if !fixed {
            keys.push(key);
        }
        i = i + 1;
    }
    proof {
        lemma_chosen_all(keys@, all@, keep);
        assert(all@.to_set().filter(keep) =~= free(states(tier@)));
    }
    keys
}

/// A copy of `keys`.
fn copy_of(keys: &Vec<BodyId>) -> (copy: Vec<BodyId>)
    ensures
        copy@ == keys@,
{
    let mut copy: Vec<BodyId> = Vec::new();
    let mut i: usize = 0;
    while i < keys.len()
        invariant
            0 <= i <= keys.len(),
            copy@ == keys@.take(i as int),
        decreases keys.len() - i,
    {
        copy.push(keys[i]);
        assert(keys@.take(i + 1) =~= keys@.take(i as int).push(keys@[i as int]));
        i = i + 1;
    }
    assert(keys@.take(keys.len() as int) =~= keys@);
    copy
}

/// Says for each body which bodies pull on it. Primary bodies pull on every
/// body but themselves, secondary bodies on none, and nothing pulls on a
/// fixed body.
pub fn acceleration_plan(bodies: &OrbitalBodies) -> (plan: AccelerationPlan)
    ensures
        plan.plans(bodies@),
{
    let primaries = keys_of(&bodies.tier0);
    let secondaries = keys_of(&bodies.tier1);
    let mut tier0: Vec<Pull> = Vec::new();
    let mut i: usize = 0;
    while i < primaries.len()
        invariant
            0 <= i <= primaries.len(),
            names(primaries@, bodies@.tier0.dom()),
            tier0@.map_values(|pull: Pull| pull.pullee) == primaries@.take(i as int),
            forall|k: int|
                0 <= k < tier0.len() ==> names(
                    (#[trigger] tier0[k]).pulling@,
                    pulling_on_primary(bodies@, tier0[k].pullee),
                ),
        decreases primaries.len() - i,
    {
        let id = primaries[i];
        assert(primaries@.to_set().contains(id));
        let fixed = match bodies.tier0.get(&id) {
            Some(body) => body.fixed,
            None => true,
        };
        let pulling = if fixed {
            Vec::new()
        } else {
            without(&primaries, id)
        };
        assert(names(pulling@, pulling_on_primary(bodies@, id))) by {
            if fixed {
                assert(pulling@.to_set() =~= Set::<BodyId>::empty());
            }
        }
        let ghost before = tier0@;
        tier0.push(Pull { pullee: id, pulling });
        assert(tier0@.map_values(|pull: Pull| pull.pullee) =~= before.map_values(
            |pull: Pull| pull.pullee,
        ).push(id));
        assert(primaries@.take(i + 1) =~= primaries@.take(i as int).push(id));
        i = i + 1;
    }
    assert(primaries@.take(primaries.len() as int) =~= primaries@);
    let mut tier1: Vec<Pull> = Vec::new();
    let mut j: usize = 0;
    while j < secondaries.len()
        invariant
            0 <= j <= secondaries.len(),
            names(primaries@, bodies@.tier0.dom()),
            names(secondaries@, bodies@.tier1.dom()),
            tier1@.map_values(|pull: Pull| pull.pullee) == secondaries@.take(j as int),
            forall|k: int|
                0 <= k < tier1.len() ==> names(
                    (#[trigger] tier1[k]).pulling@,
                    pulling_on_secondary(bodies@, tier1[k].pullee),
                ),
        decreases secondaries.len() - j,
    {
        let id = secondaries[j];
        assert(secondaries@.to_set().contains(id));
        let fixed = match bodies.tier1.get(&id) {
            Some(body) => body.fixed,
            None => true,
        };
        let pulling = if fixed {
            Vec::new()
        } else {
            copy_of(&primaries)
        };
        assert(names(pulling@, pulling_on_secondary(bodies@, id))) by {
            if fixed {
                assert(pulling@.to_set() =~= Set::<BodyId>::empty());
            }
        }
        let ghost before = tier1@;
        tier1.push(Pull { pullee: id, pulling });
        assert(tier1@.map_values(|pull: Pull| pull.pullee) =~= before.map_values(
            |pull: Pull| pull.pullee,
        ).push(id));
        assert(secondaries@.take(j + 1) =~= secondaries@.take(j as int).push(id));
        j = j + 1;
    }
    assert(secondaries@.take(secondaries.len() as int) =~= secondaries@);
    AccelerationPlan { tier0, tier1 }
}

/// The bodies that a step advances, by tier: those that are not fixed.
pub struct Movable {
    pub tier0: Vec<BodyId>,
    pub tier1: Vec<BodyId>,
}

/// Names the bodies that a step advances. Fixed bodies are not among them.
pub fn movable(bodies: &OrbitalBodies) -> (ids: Movable)
    ensures
        names(ids.tier0@, free(bodies@.tier0)),
        names(ids.tier1@, free(bodies@.tier1)),
{
    Movable { tier0: free_keys(&bodies.tier0), tier1: free_keys(&bodies.tier1) }
}

/// Every pair of a member of `first` with a member of `second`, each once,
/// member by member of `first`.
pub open spec fn pairs_across(first: Seq<BodyId>, second: Seq<BodyId>) -> Seq<(BodyId, BodyId)>
    decreases first.len(),
{
    if first.len() == 0 {
        Seq::empty()
    } else {
        pairs_across(first.drop_last(), second) + second.map_values(
            |other: BodyId| (first.last(), other),
        )
    }
}

/// Pairs each member of `first` with each member of `second`.
pub fn cross_pairs(first: &Vec<BodyId>, second: &Vec<BodyId>) -> (pairs: Vec<(BodyId, BodyId)>)
    ensures
        pairs@ == pairs_across(first@, second@),
{
    let mut pairs: Vec<(BodyId, BodyId)> = Vec::new();
    let mut i: usize = 0;
    assert(first@.take(0) =~= Seq::<BodyId>::empty());
    while i < first.len()
        invariant
            0 <= i <= first.len(),
            pairs@ == pairs_across(first@.take(i as int), second@),
        decreases first.len() - i,
    {
        let ghost before = pairs@;
        let one = first[i];
        let mut j: usize = 0;
        while j < second.len()
            invariant
                0 <= j <= second.len(),
                pairs@ == before + second@.take(j as int).map_values(
                    |other: BodyId| (one, other),
                ),
            decreases second.len() - j,
        {
            pairs.push((one, second[j]));
            assert(second@.take(j + 1).map_values(|other: BodyId| (one, other))
                =~= second@.take(j as int).map_values(|other: BodyId| (one, other)).push(
                (one, second@[j as int]),
            ));
            j = j + 1;
        }
        proof {
            assert(second@.take(second.len() as int) =~= second@);
            assert(first@.take(i + 1).drop_last() =~= first@.take(i as int));
            assert(first@.take(i + 1).last() == one);
        }
        i = i + 1;
    }
    assert(first@.take(first.len() as int) =~= first@);
    pairs
}

/// The pairs of bodies whose potential energies make up that of the system.
pub struct PotentialPairs {
    /// Pairs of two primary bodies.
    pub within: Vec<(BodyId, BodyId)>,
    /// Pairs of a primary body with a secondary one.
    pub across: Vec<(BodyId, BodyId)>,
}

/// Names the pairs that count for the potential energy: two primary bodies,
/// or a primary and a secondary one, neither of them fixed; each pair once,
/// and no body with itself.
pub fn potential_pairs(bodies: &OrbitalBodies) -> (pairs: PotentialPairs)
    ensures
        exists|first: Seq<BodyId>, second: Seq<BodyId>|
            names(first, free(bodies@.tier0)) && names(second, free(bodies@.tier1))
                && pairs.within@ == pairs_within(first) && pairs.across@ == pairs_across(
                first,
                second,
            ),
{
    let ids = movable(bodies);
    let within = candidate_pairs_of_slice(&ids.tier0);
    let across = cross_pairs(&ids.tier0, &ids.tier1);
    PotentialPairs { within, across }
}

/// The collection after body `id` has moved to `pos`. A fixed body stays, and
/// so does everything where no body is kept under `id`.
pub open spec fn drifted(bodies: Registry, id: BodyId, pos: Vector) -> Registry {
    match bodies.lookup(id) {
        Some(body) => if body.fixed {
            bodies
        } else {
            bodies.replace(id, body.moved(pos))
        },
        None => bodies,
    }
}

/// The collection after the moves, taken in their order.
pub open spec fn drifted_all(bodies: Registry, moves: Seq<(BodyId, Vector)>) -> Registry
    decreases moves.len(),
{
    if moves.len() == 0 {
        bodies
    } else {
        drifted(drifted_all(bodies, moves.drop_last()), moves.last().0, moves.last().1)
    }
}

/// The collection after body `id` has taken the velocity `velocity`. A fixed
/// body keeps its own.
pub open spec fn kicked(bodies: Registry, id: BodyId, velocity: Vector) -> Registry {
    match bodies.lookup(id) {
        Some(body) => if body.fixed {
            bodies
        } else {
            bodies.replace(id, body.kicked(velocity))
        },
        None => bodies,
    }
}

/// The collection after the kicks, taken in their order.
pub open spec fn kicked_all(bodies: Registry, kicks: Seq<(BodyId, Vector)>) -> Registry
    decreases kicks.len(),
{
    if kicks.len() == 0 {
        bodies
    } else {
        kicked(kicked_all(bodies, kicks.drop_last()), kicks.last().0, kicks.last().1)
    }
}

/// The collection after body `id` has taken the acceleration `accel`.
pub open spec fn pulled(bodies: Registry, id: BodyId, accel: Vector) -> Registry {
    match bodies.lookup(id) {
        Some(body) => bodies.replace(id, body.pulled(accel)),
        None => bodies,
    }
}

/// The collection after the accelerations, taken in their order.
pub open spec fn pulled_all(bodies: Registry, accelerations: Seq<(BodyId, Vector)>) -> Registry
    decreases accelerations.len(),
{
    if accelerations.len() == 0 {
        bodies
    } else {
        pulled(
            pulled_all(bodies, accelerations.drop_last()),
            accelerations.last().0,
            accelerations.last().1,
        )
    }
}

/// The accelerations by identity: of those given for one body the last, and
/// none for an identity under which no body is kept.
pub open spec fn charted(bodies: Registry, accelerations: Seq<(BodyId, Vector)>) -> Map<
    BodyId,
    Vector,
>
    decreases accelerations.len(),
{
    if accelerations.len() == 0 {
        Map::empty()
    } else {
        let before = charted(bodies, accelerations.drop_last());
        if bodies.contains(accelerations.last().0) {
            before.insert(accelerations.last().0, accelerations.last().1)
        } else {
            before
        }
    }
}

/// Moves each named body to its new position and records it in the body's
/// history. Fixed bodies are passed over, and so are identities under which
/// no body is kept.
pub fn drift(bodies: &mut OrbitalBodies, moves: &Vec<(BodyId, Vector)>)
    ensures
        final(bodies)@ == drifted_all(old(bodies)@, moves@),
{
    let mut i: usize = 0;
    assert(moves@.take(0) =~= Seq::<(BodyId, Vector)>::empty());
    while i < moves.len()
        invariant
            0 <= i <= moves.len(),
            bodies@ == drifted_all(old(bodies)@, moves@.take(i as int)),
        decreases moves.len() - i,
    {
        let (id, pos) = moves[i];
        let ghost before = bodies@;
        proof {
            assert(moves@.take(i + 1).drop_last() =~= moves@.take(i as int));
            assert(moves@.take(i + 1).last() == moves@[i as int]);
        }
        match bodies.get_mut_by_id(id) {
            Some(body) => {
                if !body.fixed {
                    body.set_pos(pos);
                }
            },
            None => {},
        }
        proof {
            if before.contains(id) {
                before.lemma_replace_same(id);
            }
        }
        i = i + 1;
    }
    assert(moves@.take(moves.len() as int) =~= moves@);
}

/// Gives each named body its new velocity. Fixed bodies are passed over, and
/// so are identities under which no body is kept.
pub fn kick(bodies: &mut OrbitalBodies, kicks: &Vec<(BodyId, Vector)>)
    ensures
        final(bodies)@ == kicked_all(old(bodies)@, kicks@),
{
    let mut i: usize = 0;
    assert(kicks@.take(0) =~= Seq::<(BodyId, Vector)>::empty());
    while i < kicks.len()
        invariant
            0 <= i <= kicks.len(),
            bodies@ == kicked_all(old(bodies)@, kicks@.take(i as int)),
        decreases kicks.len() - i,
    {
        let (id, velocity) = kicks[i];
        let ghost before = bodies@;
        proof {
            assert(kicks@.take(i + 1).drop_last() =~= kicks@.take(i as int));
            assert(kicks@.take(i + 1).last() == kicks@[i as int]);
        }
        match bodies.get_mut_by_id(id) {
            Some(body) => {
                if !body.fixed {
                    body.velocity = velocity;
                }
            },
            None => {},
        }
        proof {
            if before.contains(id) {
                before.lemma_replace_same(id);
            }
        }
        i = i + 1;
    }
    assert(kicks@.take(kicks.len() as int) =~= kicks@);
}

/// Writes the accelerations into the bodies and hands them back by identity.
/// An identity under which no body is kept is passed over.
pub fn update_acceleration(bodies: &mut OrbitalBodies, accelerations: &Vec<(BodyId, Vector)>) -> (chart:
    HashMap<BodyId, Vector>)
    ensures
        final(bodies)@ == pulled_all(old(bodies)@, accelerations@),
        chart@ == charted(old(bodies)@, accelerations@),
{
    let mut chart: HashMap<BodyId, Vector> = HashMap::new();
    let mut i: usize = 0;
    assert(accelerations@.take(0) =~= Seq::<(BodyId, Vector)>::empty());
    while i < accelerations.len()
        invariant
            0 <= i <= accelerations.len(),
            bodies@ == pulled_all(old(bodies)@, accelerations@.take(i as int)),
            chart@ == charted(old(bodies)@, accelerations@.take(i as int)),
            forall|id: BodyId| bodies@.contains(id) == old(bodies)@.contains(id),
        decreases accelerations.len() - i,
    {
        let (id, accel) = accelerations[i];
        let ghost before = bodies@;
        proof {
            assert(accelerations@.take(i + 1).drop_last() =~= accelerations@.take(i as int));
            assert(accelerations@.take(i + 1).last() == accelerations@[i as int]);
        }
        match bodies.get_mut_by_id(id) {
            Some(body) => {
                body.accel = accel;
                let _ = chart.insert(id, accel);
            },
            None => {},
        }
        proof {
            assert forall|other: BodyId| bodies@.contains(other) == before.contains(other) by {
                if before.contains(id) {
                    before.lemma_replace_lookup(id, before.lookup(id)->0.pulled(accel), other);
                }
            }
        }
        i = i + 1;
    }
    assert(accelerations@.take(accelerations.len() as int) =~= accelerations@);
    chart
}

/// A member of `first` is paired with a member of `second`, and nothing else
/// is.
pub proof fn lemma_pairs_across_contains(
    first: Seq<BodyId>,
    second: Seq<BodyId>,
    one: BodyId,
    other: BodyId,
)
    ensures
        pairs_across(first, second).contains((one, other)) <==> first.contains(one)
            && second.contains(other),
    decreases first.len(),
{
    if first.len() > 0 {
        let rest = first.drop_last();
        let head = pairs_across(rest, second);
        let tail = second.map_values(|other: BodyId| (first.last(), other));
        lemma_pairs_across_contains(rest, second, one, other);
        if (head + tail).contains((one, other)) {
            let at = choose|at: int|
                0 <= at < (head + tail).len() && (head + tail)[at] == (one, other);
            if at < head.len() {
                assert(head[at] == (one, other));
                assert(head.contains((one, other)));
                let k = choose|k: int| 0 <= k < rest.len() && rest[k] == one;
                assert(first[k] == one);
            } else {
                assert(tail[at - head.len()] == (one, other));
                assert(first[first.len() - 1] == one);
                assert(second[at - head.len()] == other);
            }
        }
        if first.contains(one) && second.contains(other) {
            let k = choose|k: int| 0 <= k < first.len() && first[k] == one;
            let m = choose|m: int| 0 <= m < second.len() && second[m] == other;
            if k < rest.len() {
                assert(rest[k] == one);
                assert(head.contains((one, other)));
                let at = choose|at: int| 0 <= at < head.len() && head[at] == (one, other);
                assert((head + tail)[at] == (one, other));
            } else {
                assert(tail[m] == (one, other));
                assert((head + tail)[head.len() + m] == (one, other));
            }
        }
    }
}

/// Where no member is named twice, no pair is made twice.
pub proof fn lemma_pairs_across_no_duplicates(first: Seq<BodyId>, second: Seq<BodyId>)
    requires
        first.no_duplicates(),
        second.no_duplicates(),
    ensures
        pairs_across(first, second).no_duplicates(),
    decreases first.len(),
{
    if first.len() > 0 {
        let rest = first.drop_last();
        let head = pairs_across(rest, second);
        let tail = second.map_values(|other: BodyId| (first.last(), other));
        lemma_pairs_across_no_duplicates(rest, second);
        assert forall|x: int, y: int|
            0 <= x < (head + tail).len() && 0 <= y < (head + tail).len() && x != y implies (head
            + tail)[x] != (head + tail)[y] by {
            if x < head.len() && y < head.len() {
                assert(head[x] != head[y]);
            } else if x >= head.len() && y >= head.len() {
                assert(second[x - head.len()] != second[y - head.len()]);
            } else {
                let inner = if x < head.len() {
                    x
                } else {
                    y
                };
                let pair = head[inner];
                assert(head.contains(pair));
                lemma_pairs_across_contains(rest, second, pair.0, pair.1);
                let k = choose|k: int| 0 <= k < rest.len() && rest[k] == pair.0;
                assert(first[k] == pair.0);
                assert(first[first.len() - 1] == first.last());
            }
        }
    }
}

/// Tier isolation: where no primary body is present, nothing pulls on any
/// body, so that every acceleration is a sum of nothing.
pub proof fn lemma_tier_isolation(plan: AccelerationPlan, bodies: Registry)
    requires
        plan.plans(bodies),
        bodies.tier0.dom() == Set::<BodyId>::empty(),
    ensures
        plan.tier0.len() == 0,
        forall|i: int| 0 <= i < plan.tier1.len() ==> (#[trigger] plan.tier1[i]).pulling.len() == 0,
{
    let pullees = plan.tier0@.map_values(|pull: Pull| pull.pullee);
    if plan.tier0.len() > 0 {
        assert(pullees.to_set().contains(pullees[0]));
    }
    assert forall|i: int| 0 <= i < plan.tier1.len() implies (#[trigger] plan.tier1[i]).pulling.len()
        == 0 by {
        let pulling = plan.tier1[i].pulling@;
        if pulling.len() > 0 {
            assert(pulling.to_set().contains(pulling[0]));
        }
    }
}

/// No body pulls on itself, every body that pulls is a primary one, and
/// nothing pulls on a fixed body.
pub proof fn lemma_pulls_come_from_other_primaries(
    plan: AccelerationPlan,
    bodies: Registry,
    i: int,
    k: int,
)
    requires
        plan.plans(bodies),
    ensures
        0 <= i < plan.tier0.len() && 0 <= k < plan.tier0[i].pulling.len() ==> {
            &&& plan.tier0[i].pulling[k] != plan.tier0[i].pullee
            &&& bodies.tier0.contains_key(plan.tier0[i].pulling[k])
            &&& !bodies.tier0[plan.tier0[i].pullee].fixed
        },
        0 <= i < plan.tier1.len() && 0 <= k < plan.tier1[i].pulling.len() ==> {
            &&& bodies.tier0.contains_key(plan.tier1[i].pulling[k])
            &&& !bodies.tier1[plan.tier1[i].pullee].fixed
        },
{
    if 0 <= i < plan.tier0.len() && 0 <= k < plan.tier0[i].pulling.len() {
        let pulling = plan.tier0[i].pulling@;
        assert(pulling.to_set().contains(pulling[k]));
    }
    if 0 <= i < plan.tier1.len() && 0 <= k < plan.tier1[i].pulling.len() {
        let pulling = plan.tier1[i].pulling@;
        assert(pulling.to_set().contains(pulling[k]));
    }
}

/// A fixed body is where it was, and as fast as it was, after any moves and
/// any kicks.
pub proof fn lemma_fixed_bodies_stay(bodies: Registry, changes: Seq<(BodyId, Vector)>, id: BodyId)
    requires
        bodies.lookup(id) is Some,
        bodies.lookup(id)->0.fixed,
    ensures
        drifted_all(bodies, changes).lookup(id) == bodies.lookup(id),
        kicked_all(bodies, changes).lookup(id) == bodies.lookup(id),
    decreases changes.len(),
{
    if changes.len() > 0 {
        lemma_fixed_bodies_stay(bodies, changes.drop_last(), id);
        let (other, to) = changes.last();
        let drifted_before = drifted_all(bodies, changes.drop_last());
        if drifted_before.contains(other) {
            drifted_before.lemma_replace_lookup(other, drifted_before.lookup(other)->0.moved(to), id);
        }
        let kicked_before = kicked_all(bodies, changes.drop_last());
        if kicked_before.contains(other) {
            kicked_before.lemma_replace_lookup(other, kicked_before.lookup(other)->0.kicked(to), id);
        }
    }
}

/// No move, kick or acceleration takes a body from its tier or brings one
/// into it: each tier keeps a body under the very identities as before.
pub proof fn lemma_changes_keep_tiers(bodies: Registry, changes: Seq<(BodyId, Vector)>)
    ensures
        drifted_all(bodies, changes).tier0.dom() == bodies.tier0.dom(),
        drifted_all(bodies, changes).tier1.dom() == bodies.tier1.dom(),
        kicked_all(bodies, changes).tier0.dom() == bodies.tier0.dom(),
        kicked_all(bodies, changes).tier1.dom() == bodies.tier1.dom(),
        pulled_all(bodies, changes).tier0.dom() == bodies.tier0.dom(),
        pulled_all(bodies, changes).tier1.dom() == bodies.tier1.dom(),
    decreases changes.len(),
{
    if changes.len() > 0 {
        lemma_changes_keep_tiers(bodies, changes.drop_last());
        let (other, to) = changes.last();
        let drifted_before = drifted_all(bodies, changes.drop_last());
        let kicked_before = kicked_all(bodies, changes.drop_last());
        let pulled_before = pulled_all(bodies, changes.drop_last());
        assert(drifted(drifted_before, other, to).tier0.dom() =~= drifted_before.tier0.dom());
        assert(drifted(drifted_before, other, to).tier1.dom() =~= drifted_before.tier1.dom());
        assert(kicked(kicked_before, other, to).tier0.dom() =~= kicked_before.tier0.dom());
        assert(kicked(kicked_before, other, to).tier1.dom() =~= kicked_before.tier1.dom());
        assert(pulled(pulled_before, other, to).tier0.dom() =~= pulled_before.tier0.dom());
        assert(pulled(pulled_before, other, to).tier1.dom() =~= pulled_before.tier1.dom());
    }
}

/// A well-formed collection is well formed after any moves, kicks and
/// accelerations, and keeps a body under the same identities as before.
pub proof fn lemma_changes_keep_wf(bodies: Registry, changes: Seq<(BodyId, Vector)>, id: BodyId)
    requires
        bodies.wf(),
    ensures
        drifted_all(bodies, changes).wf(),
        kicked_all(bodies, changes).wf(),
        pulled_all(bodies, changes).wf(),
        drifted_all(bodies, changes).contains(id) == bodies.contains(id),
        kicked_all(bodies, changes).contains(id) == bodies.contains(id),
        pulled_all(bodies, changes).contains(id) == bodies.contains(id),
    decreases changes.len(),
{
    if changes.len() > 0 {
        lemma_changes_keep_wf(bodies, changes.drop_last(), id);
        let (other, to) = changes.last();
        let drifted_before = drifted_all(bodies, changes.drop_last());
        if drifted_before.contains(other) {
            let body = drifted_before.lookup(other)->0;
            drifted_before.lemma_replace_keeps_wf(other, body.moved(to));
            drifted_before.lemma_replace_lookup(other, body.moved(to), id);
        }
        let kicked_before = kicked_all(bodies, changes.drop_last());
        if kicked_before.contains(other) {
            let body = kicked_before.lookup(other)->0;
            kicked_before.lemma_replace_keeps_wf(other, body.kicked(to));
            kicked_before.lemma_replace_lookup(other, body.kicked(to), id);
        }
        let pulled_before = pulled_all(bodies, changes.drop_last());
        if pulled_before.contains(other) {
            let body = pulled_before.lookup(other)->0;
            pulled_before.lemma_replace_keeps_wf(other, body.pulled(to));
            pulled_before.lemma_replace_lookup(other, body.pulled(to), id);
        }
    }
}

} // verus!
