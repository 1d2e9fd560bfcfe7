use std::collections::hash_map::Entry;
use std::collections::HashMap;
use vstd::prelude::*;
use vstd::std_specs::cmp::PartialEqSpecImpl;
use vstd::std_specs::iter::IteratorSpec;

use crate::scalar::Scalar;
use crate::scalar::ONE_BITS;
use crate::scalar::Vector;
use crate::trail::recorded;
use crate::trail::Trail;

verus! {

broadcast use vstd::std_specs::hash::group_hash_axioms;

/// The identity of a body: unique within a run, and never given out again.
pub type BodyId = usize;

/// The source of identities. It hands out 0, 1, 2, ... in that order, so that
/// no identity leaves it twice.
pub struct IdGenerator {
    next: BodyId,
}

impl IdGenerator {
    /// The number of identities handed out so far, which is also the next one.
    pub closed spec fn issued(&self) -> nat {
        self.next as nat
    }

    /// A generator that has handed out nothing.
    pub fn new() -> (ids: IdGenerator)
        ensures
            ids.issued() == 0,
    {
        IdGenerator { next: 0 }
    }

    /// The number of identities that are left.
    pub fn remaining(&self) -> (left: usize)
        ensures
            left == usize::MAX - self.issued(),
    {
        usize::MAX - self.next
    }

    /// The next identity.
    pub fn fresh(&mut self) -> (id: BodyId)
        requires
            old(self).issued() < usize::MAX,
        ensures
            id == old(self).issued(),
            final(self).issued() == old(self).issued() + 1,
    {
        let id = self.next;
        self.next = id + 1;
        id
    }
}

/// Whether the positions of a body are drawn as a trail.
#[derive(Clone, Copy, Debug, PartialEq, Eq, Structural)]
pub enum TrailParameter {
    Trail,
    NoTrail,
}

/// The colour in which a body is drawn: red, green, blue and opacity.
#[derive(Clone, Copy, Debug, PartialEq, Eq, Structural)]
pub struct Color {
    pub r: u8,
    pub g: u8,
    pub b: u8,
    pub a: u8,
}

/// What a body is, to the contracts: its fields, and its position history
/// as a sequence, the oldest position first.
pub struct BodyState {
    pub id: BodyId,
    pub mass: Scalar,
    pub pos: Vector,
    pub physical_radius: Scalar,
    pub draw_radius: Scalar,
    pub color: Color,
    pub velocity: Vector,
    pub accel: Vector,
    pub fixed: bool,
    pub trail_parameter: TrailParameter,
    pub history: Seq<Vector>,
}

impl BodyState {
    /// The body at a new position, which its history records.
    pub open spec fn moved(self, pos: Vector) -> BodyState {
        BodyState { pos, history: recorded(self.history, pos), ..self }
    }

    /// The body with a new velocity.
    pub open spec fn kicked(self, velocity: Vector) -> BodyState {
        BodyState { velocity, ..self }
    }

    /// The body with a new acceleration.
    pub open spec fn pulled(self, accel: Vector) -> BodyState {
        BodyState { accel, ..self }
    }

    /// The body after it has taken another one in.
    pub open spec fn merged(self, mass: Scalar, velocity: Vector) -> BodyState {
        BodyState { mass, velocity, ..self }
    }
}

/// A body of the simulation.
pub struct Body {
    /// The identity of the body, which never changes.
    pub(crate) id: BodyId,
    /// Mass in kilograms.
    pub mass: Scalar,
    /// The centre of the body. Every change of it goes into the history.
    pub(crate) pos: Vector,
    /// The radius within which the body collides.
    pub physical_radius: Scalar,
    /// The radius, in pixels, with which the body is drawn.
    pub draw_radius: Scalar,
    /// The colour with which the body is drawn.
    pub color: Color,
    /// Velocity in metres per second.
    pub velocity: Vector,
    /// Acceleration in metres per second squared.
    pub accel: Vector,
    /// A fixed body pulls on others and is never moved itself.
    pub fixed: bool,
    /// Whether the history is drawn.
    pub trail_parameter: TrailParameter,
    /// The most recent positions of the body.
    pub(crate) pos_list: Trail,
}

impl View for Body {
    type V = BodyState;

    open(crate) spec fn view(&self) -> BodyState {
        BodyState {
            id: self.id,
            mass: self.mass,
            pos: self.pos,
            physical_radius: self.physical_radius,
            draw_radius: self.draw_radius,
            color: self.color,
            velocity: self.velocity,
            accel: self.accel,
            fixed: self.fixed,
            trail_parameter: self.trail_parameter,
            history: self.pos_list@,
        }
    }
}

impl Body {
    /// A body with the next identity of `ids`, a drawn trail and no history.
    pub fn new(
        ids: &mut IdGenerator,
        mass: Scalar,
        pos: Vector,
        physical_radius: Scalar,
        draw_radius: Scalar,
        color: Color,
        velocity: Vector,
        accel: Vector,
        fixed: bool,
    ) -> (body: Body)
        requires
            old(ids).issued() < usize::MAX,
        ensures
            final(ids).issued() == old(ids).issued() + 1,
            body@ == (BodyState {
                id: old(ids).issued() as BodyId,
                mass,
                pos,
                physical_radius,
                draw_radius,
                color,
                velocity,
                accel,
                fixed,
                trail_parameter: TrailParameter::Trail,
                history: Seq::empty(),
            }),
    {
        Body {
            id: ids.fresh(),
            mass,
            pos,
            physical_radius,
            draw_radius,
            color,
            velocity,
            accel,
            fixed,
            trail_parameter: TrailParameter::Trail,
            pos_list: Trail::new(),
        }
    }

    /// The identity of the body.
    pub fn id(&self) -> (id: BodyId)
        ensures
            id == self@.id,
    {
        self.id
    }

    /// The position of the body.
    pub fn pos(&self) -> (pos: Vector)
        ensures
            pos == self@.pos,
    {
        self.pos
    }

    /// The position of the body as an array of its two coordinates.
    pub fn pos_arr(&self) -> (pos: [Scalar; 2])
        ensures
            pos@ == seq![self@.pos.0, self@.pos.1],
    {
        let pos = [self.pos.0, self.pos.1];
        assert(pos@ =~= seq![self@.pos.0, self@.pos.1]);
        pos
    }

    /// The recorded positions of the body, the oldest first.
    pub fn history(&self) -> (history: Vec<Vector>)
        ensures
            history@ == self@.history,
            history@.len() <= crate::trail::MAXIMUM_POSITION_HISTORY,
    {
        self.pos_list.positions()
    }

    /// Moves the body to `pos` and records the position in its history.
    pub fn set_pos(&mut self, pos: Vector)
        ensures
            final(self)@ == old(self)@.moved(pos),
    {
        self.pos_list.record(pos);
        self.pos = pos;
    }
}

/// What was drawn for one asteroid of a belt: its mass and radius, and the
/// position and velocity that put it on its orbit.
#[derive(Clone, Copy, Debug, PartialEq, Eq)]
pub struct Asteroid {
    pub mass: Scalar,
    pub physical_radius: Scalar,
    pub pos: Vector,
    pub velocity: Vector,
}

/// The colour of an asteroid.
pub open spec fn asteroid_color() -> Color {
    Color { r: 245, g: 245, b: 245, a: 255 }
}

/// The body that an asteroid becomes under the identity `id`: free to move,
/// one pixel wide, without a drawn trail, on its orbit and with that
/// position as its whole history.
pub open spec fn asteroid_body(id: BodyId, asteroid: Asteroid) -> BodyState {
    BodyState {
        id,
        mass: asteroid.mass,
        pos: asteroid.pos,
        physical_radius: asteroid.physical_radius,
        draw_radius: Scalar { bits: ONE_BITS },
        color: asteroid_color(),
        velocity: asteroid.velocity,
        accel: (Scalar { bits: 0 }, Scalar { bits: 0 }),
        fixed: false,
        trail_parameter: TrailParameter::NoTrail,
        history: seq![asteroid.pos],
    }
}

/// Creates the bodies of an asteroid belt, one for each asteroid drawn, with
/// the next identities of `ids` in the order of `asteroids`.
pub fn create_asteroid_belt(ids: &mut IdGenerator, asteroids: &Vec<Asteroid>) -> (belt: Vec<Body>)
    requires
        old(ids).issued() + asteroids.len() <= usize::MAX,
    ensures
        final(ids).issued() == old(ids).issued() + asteroids.len(),
        belt.len() == asteroids.len(),
        forall|i: int|
            0 <= i < belt.len() ==> (#[trigger] belt[i])@ == asteroid_body(
                (old(ids).issued() + i) as BodyId,
                asteroids[i],
            ),
{
    let mut belt: Vec<Body> = Vec::new();
    let mut i: usize = 0;
    while i < asteroids.len()
        invariant
            0 <= i <= asteroids.len(),
            old(ids).issued() + asteroids.len() <= usize::MAX,
            ids.issued() == old(ids).issued() + i,
            belt.len() == i,
            forall|k: int|
                0 <= k < i ==> (#[trigger] belt[k])@ == asteroid_body(
                    (old(ids).issued() + k) as BodyId,
                    asteroids[k],
                ),
        decreases asteroids.len() - i,
    {
        let drawn = asteroids[i];
        let mut body = Body::new(
            ids,
            drawn.mass,
            (Scalar::zero(), Scalar::zero()),
            drawn.physical_radius,
            Scalar::one(),
            Color { r: 245, g: 245, b: 245, a: 255 },
            (Scalar::zero(), Scalar::zero()),
            (Scalar::zero(), Scalar::zero()),
            false,
        );
        body.trail_parameter = TrailParameter::NoTrail;
        body.set_pos(drawn.pos);
        body.velocity = drawn.velocity;
        assert(body@.history =~= seq![drawn.pos]);
        let ghost before = belt@;
        belt.push(body);
        assert forall|k: int| 0 <= k < i + 1 implies (#[trigger] belt[k])@ == asteroid_body(
            (old(ids).issued() + k) as BodyId,
            asteroids[k],
        ) by {
            if k < i {
                assert(belt[k] == before[k]);
            }
        }
        i = i + 1;
    }
    belt
}

impl PartialEq for Body {
    /// Two bodies are the same body when they have the same identity.
    fn eq(&self, other: &Self) -> (same: bool) {
        self.id == other.id
    }
}

impl PartialEqSpecImpl for Body {
    open spec fn obeys_eq_spec() -> bool {
        true
    }

    open spec fn eq_spec(&self, other: &Self) -> bool {
        self@.id == other@.id
    }
}

/// What the collection of bodies is, to the contracts: the bodies of each tier
/// by the identity under which they are kept.
pub struct Registry {
    /// The primary bodies, which pull on every body.
    pub tier0: Map<BodyId, BodyState>,
    /// The secondary bodies, which are pulled and pull on nothing.
    pub tier1: Map<BodyId, BodyState>,
}

impl Registry {
    /// Whether a body is kept under `id`.
    pub open spec fn contains(self, id: BodyId) -> bool {
        self.tier0.contains_key(id) || self.tier1.contains_key(id)
    }

    /// The body kept under `id`: the primary one, where both tiers have one.
    pub open spec fn lookup(self, id: BodyId) -> Option<BodyState> {
        if self.tier0.contains_key(id) {
            Some(self.tier0[id])
        } else if self.tier1.contains_key(id) {
            Some(self.tier1[id])
        } else {
            None
        }
    }

    /// The collection without `id`.
    pub open spec fn remove(self, id: BodyId) -> Registry {
        Registry { tier0: self.tier0.remove(id), tier1: self.tier1.remove(id) }
    }

    /// The collection with `body` in the place of the body that `lookup` finds
    /// under `id`; unchanged, where it finds none.
    pub open spec fn replace(self, id: BodyId, body: BodyState) -> Registry {
        if self.tier0.contains_key(id) {
            Registry { tier0: self.tier0.insert(id, body), tier1: self.tier1 }
        } else if self.tier1.contains_key(id) {
            Registry { tier0: self.tier0, tier1: self.tier1.insert(id, body) }
        } else {
            self
        }
    }

    /// To put a body in its own place changes nothing.
    pub proof fn lemma_replace_same(self, id: BodyId)
        requires
            self.contains(id),
        ensures
            self.replace(id, self.lookup(id)->0) == self,
    {
        if self.tier0.contains_key(id) {
            assert(self.tier0.insert(id, self.tier0[id]) =~= self.tier0);
        } else {
            assert(self.tier1.insert(id, self.tier1[id]) =~= self.tier1);
        }
    }

    /// A body that takes the place of one with its own identity leaves the
    /// collection well formed.
    pub proof fn lemma_replace_keeps_wf(self, id: BodyId, body: BodyState)
        requires
            self.wf(),
            body.id == id,
        ensures
            self.replace(id, body).wf(),
    {
        let after = self.replace(id, body);
        if self.tier0.contains_key(id) {
            assert(after.tier0.dom() =~= self.tier0.dom());
        } else if self.tier1.contains_key(id) {
            assert(after.tier1.dom() =~= self.tier1.dom());
        }
    }

    /// What `replace` puts under an identity is what `lookup` then finds
    /// there, and under every other identity it finds what it found before.
    pub proof fn lemma_replace_lookup(self, id: BodyId, body: BodyState, other: BodyId)
        ensures
            self.contains(id) ==> self.replace(id, body).lookup(id) == Some(body),
            other != id ==> self.replace(id, body).lookup(other) == self.lookup(other),
            self.replace(id, body).contains(other) == self.contains(other),
    {
    }

    /// A collection stays well formed when a body leaves it.
    pub proof fn lemma_remove_keeps_wf(self, id: BodyId)
        requires
            self.wf(),
        ensures
            self.remove(id).wf(),
    {
    }

    /// An identity that was removed finds no body, whatever is done next; to
    /// remove it again, or to remove one that finds no body, changes nothing;
    /// and the other bodies stay as they are.
    pub proof fn lemma_removed_is_gone(self, id: BodyId, other: BodyId)
        ensures
            self.remove(id).lookup(id) is None,
            self.remove(id).remove(id) == self.remove(id),
            !self.contains(id) ==> self.remove(id) == self,
            other != id ==> self.remove(id).lookup(other) == self.lookup(other),
    {
        assert(self.remove(id).tier0.remove(id) =~= self.remove(id).tier0);
        assert(self.remove(id).tier1.remove(id) =~= self.remove(id).tier1);
        if !self.contains(id) {
            assert(self.tier0.remove(id) =~= self.tier0);
            assert(self.tier1.remove(id) =~= self.tier1);
        }
    }

    /// The number of bodies, a body of each tier counted for itself.
    pub open spec fn count(self) -> nat {
        self.tier0.len() + self.tier1.len()
    }

    /// The invariant of a collection in use: every body is kept under its own
    /// identity, and no identity is in both tiers.
    pub open spec fn wf(self) -> bool {
        &&& self.tier0.dom().finite()
        &&& self.tier1.dom().finite()
        &&& forall|id: BodyId| #[trigger] self.tier0.contains_key(id) ==> self.tier0[id].id == id
        &&& forall|id: BodyId| #[trigger] self.tier1.contains_key(id) ==> self.tier1[id].id == id
        &&& forall|id: BodyId|
            !(#[trigger] self.tier0.contains_key(id) && #[trigger] self.tier1.contains_key(id))
    }
}

/// The bodies of a map, each as the contracts see it.
pub open spec fn states(bodies: Map<BodyId, Body>) -> Map<BodyId, BodyState> {
    bodies.map_values(|body: Body| body@)
}

/// The collection of bodies being simulated.
pub struct OrbitalBodies {
    /// Tier 0 bodies pull on every body, the others of their tier included.
    pub tier0: HashMap<BodyId, Body>,
    /// Tier 1 bodies are pulled by tier 0 and pull on nothing.
    pub tier1: HashMap<BodyId, Body>,
}

impl View for OrbitalBodies {
    type V = Registry;

    open spec fn view(&self) -> Registry {
        Registry { tier0: states(self.tier0@), tier1: states(self.tier1@) }
    }
}

/// Whether `keys` names each identity of `set` once, and no other.
pub open spec fn names(keys: Seq<BodyId>, set: Set<BodyId>) -> bool {
    keys.no_duplicates() && keys.to_set() == set
}

/// Whether `keys` names each body of `bodies` once.
pub open spec fn lists(keys: Seq<BodyId>, bodies: Map<BodyId, BodyState>) -> bool {
    names(keys, bodies.dom())
}

/// To put a body into a map is to put its state into the map of states.
proof fn lemma_states_insert(bodies: Map<BodyId, Body>, id: BodyId, body: Body)
    ensures
        states(bodies.insert(id, body)) == states(bodies).insert(id, body@),
{
    assert(states(bodies.insert(id, body)) =~= states(bodies).insert(id, body@));
}

/// A map of bodies and the map of their states have the same keys.
proof fn lemma_states_len(bodies: Map<BodyId, Body>)
    ensures
        states(bodies).dom() == bodies.dom(),
        states(bodies).len() == bodies.len(),
{
    assert(states(bodies).dom() =~= bodies.dom());
}

/// To take a body out of a map is to take its state out of the map of states.
proof fn lemma_states_remove(bodies: Map<BodyId, Body>, id: BodyId)
    ensures
        states(bodies.remove(id)) == states(bodies).remove(id),
{
    assert(states(bodies.remove(id)) =~= states(bodies).remove(id));
}

/// The bodies that `bodies` keeps under `keys`, in the order of `keys`.
pub open spec fn walk(bodies: Map<BodyId, BodyState>, keys: Seq<BodyId>) -> Seq<BodyState> {
    keys.map_values(|id: BodyId| bodies[id])
}

/// The map that takes the bodies of a sequence one after the other, each
/// under its own identity: of two bodies with one identity the later stays.
pub open spec fn collected(bodies: Seq<BodyState>) -> Map<BodyId, BodyState>
    decreases bodies.len(),
{
    if bodies.len() == 0 {
        Map::empty()
    } else {
        collected(bodies.drop_last()).insert(bodies.last().id, bodies.last())
    }
}

/// A collected map keeps every body under its own identity, and keeps a body
/// under each identity of the sequence and under no other.
pub proof fn lemma_collected_keys(bodies: Seq<BodyState>)
    ensures
        collected(bodies).dom().finite(),
        forall|id: BodyId| #[trigger]
            collected(bodies).contains_key(id) ==> collected(bodies)[id].id == id,
        forall|id: BodyId| #[trigger]
            collected(bodies).contains_key(id) <==> exists|i: int|
                0 <= i < bodies.len() && (#[trigger] bodies[i]).id == id,
    decreases bodies.len(),
{
    if bodies.len() == 0 {
    } else {
        let rest = bodies.drop_last();
        lemma_collected_keys(rest);
        assert forall|id: BodyId| #[trigger]
            collected(bodies).contains_key(id) <==> exists|i: int|
                0 <= i < bodies.len() && (#[trigger] bodies[i]).id == id by {
            if collected(bodies).contains_key(id) {
                if id == bodies.last().id {
                    assert(bodies[bodies.len() - 1].id == id);
                } else {
                    assert(collected(rest).contains_key(id));
                    let i = choose|i: int| 0 <= i < rest.len() && (#[trigger] rest[i]).id == id;
                    assert(bodies[i].id == id);
                }
            }
            if exists|i: int| 0 <= i < bodies.len() && (#[trigger] bodies[i]).id == id {
                let i = choose|i: int| 0 <= i < bodies.len() && (#[trigger] bodies[i]).id == id;
                if i < rest.len() {
                    assert(rest[i].id == id);
                    assert(collected(rest).contains_key(id));
                }
            }
        }
    }
}

/// Two collected maps make a well-formed collection where no body of the one
/// has the identity of a body of the other.
pub proof fn lemma_collected_tiers_are_wf(first: Seq<BodyState>, second: Seq<BodyState>)
    requires
        forall|i: int, j: int|
            0 <= i < first.len() && 0 <= j < second.len() ==> (#[trigger] first[i]).id
                != (#[trigger] second[j]).id,
    ensures
        (Registry { tier0: collected(first), tier1: collected(second) }).wf(),
{
    lemma_collected_keys(first);
    lemma_collected_keys(second);
    assert forall|id: BodyId|
        !(#[trigger] collected(first).contains_key(id) && #[trigger] collected(
            second,
        ).contains_key(id)) by {
        if collected(first).contains_key(id) && collected(second).contains_key(id) {
            let i = choose|i: int| 0 <= i < first.len() && (#[trigger] first[i]).id == id;
            let j = choose|j: int| 0 <= j < second.len() && (#[trigger] second[j]).id == id;
            assert(first[i].id != second[j].id);
        }
    }
}

/// The keys of one tier, each once, in the order in which the map yields them.
pub(crate) fn keys_of(bodies: &HashMap<BodyId, Body>) -> (keys: Vec<BodyId>)
    ensures
        lists(keys@, states(bodies@)),
        keys.len() == bodies@.len(),
{
    let mut keys: Vec<BodyId> = Vec::new();
    for key in it: bodies.keys()
        invariant
            keys@ == it.seq().take(it.index() as int).unref(),
            it.seq() == bodies.keys().remaining(),
    {
        keys.push(*key);
    }
    proof {
        let all = bodies.keys().remaining();
        assert(all.take(all.len() as int) == all);
        assert(keys@.no_duplicates()) by {
            assert forall|i: int, j: int|
                0 <= i < all.len() && 0 <= j < all.len() && i != j implies all.unref()[i]
                != all.unref()[j] by {
                assert(all[i] != all[j]);
            }
        }
        lemma_states_len(bodies@);
    }
    keys
}

/// Converts a vector of bodies into a map, each body under its identity.
pub fn bodies_to_map(bodies: Vec<Body>) -> (map: HashMap<BodyId, Body>)
    ensures
        states(map@) == collected(bodies@.map_values(|body: Body| body@)),
{
    let ghost all = bodies@.map_values(|body: Body| body@);
    let mut map: HashMap<BodyId, Body> = HashMap::new();
    assert(states(map@) =~= collected(all.take(0)));
    for body in it: bodies
        invariant
            it.seq() == bodies@,
            all == bodies@.map_values(|body: Body| body@),
            states(map@) == collected(all.take(it.index() as int)),
    {
        let ghost before = map@;
        let id = body.id;
        let _ = map.insert(id, body);
        proof {
            let i = it.index() as int;
            lemma_states_insert(before, id, body);
            assert(all.take(i + 1).drop_last() =~= all.take(i));
            assert(all.take(i + 1).last() == body@);
        }
    }
    assert(all.take(all.len() as int) =~= all);
    map
}

impl OrbitalBodies {
    /// Every body, those of tier 0 before those of tier 1, in no further order.
    pub fn iter(&self) -> (all: Vec<&Body>)
        ensures
            all.len() == self@.count(),
            exists|first: Seq<BodyId>, second: Seq<BodyId>|
                lists(first, self@.tier0) && lists(second, self@.tier1) && all@.map_values(
                    |body: &Body| body@,
                ) == walk(self@.tier0, first) + walk(self@.tier1, second),
    {
        let first = keys_of(&self.tier0);
        let second = keys_of(&self.tier1);
        proof {
            lemma_states_len(self.tier0@);
            lemma_states_len(self.tier1@);
        }
        let mut all: Vec<&Body> = Vec::new();
        let mut i: usize = 0;
        while i < first.len()
            invariant
                0 <= i <= first.len(),
                lists(first@, self@.tier0),
                all.len() == i,
                all@.map_values(|body: &Body| body@) == walk(self@.tier0, first@.take(i as int)),
            decreases first.len() - i,
        {
            proof {
                lemma_states_len(self.tier0@);
                assert(first@.to_set().contains(first@[i as int]));
            }
            let ghost before = all@;
            match self.tier0.get(&first[i]) {
                Some(body) => {
                    all.push(body);
                    assert(all@.map_values(|body: &Body| body@) =~= before.map_values(
                        |body: &Body| body@,
                    ).push(body@));
                },
                None => {},
            }
            assert(walk(self@.tier0, first@.take(i + 1)) =~= walk(
                self@.tier0,
                first@.take(i as int),
            ).push(self@.tier0[first@[i as int]]));
            i = i + 1;
        }
        assert(first@.take(first.len() as int) =~= first@);
        let mut j: usize = 0;
        while j < second.len()
            invariant
                0 <= j <= second.len(),
                lists(second@, self@.tier1),
                all.len() == first.len() + j,
                all@.map_values(|body: &Body| body@) == walk(self@.tier0, first@) + walk(
                    self@.tier1,
                    second@.take(j as int),
                ),
            decreases second.len() - j,
        {
            proof {
                lemma_states_len(self.tier1@);
                assert(second@.to_set().contains(second@[j as int]));
            }
            let ghost before = all@;
            match self.tier1.get(&second[j]) {
                Some(body) => {
                    all.push(body);
                    assert(all@.map_values(|body: &Body| body@) =~= before.map_values(
                        |body: &Body| body@,
                    ).push(body@));
                },
                None => {},
            }
            assert(walk(self@.tier1, second@.take(j + 1)) =~= walk(
                self@.tier1,
                second@.take(j as int),
            ).push(self@.tier1[second@[j as int]]));
            j = j + 1;
        }
        assert(second@.take(second.len() as int) =~= second@);
        all
    }

    /// The body kept under `id`, looked for in tier 0 first.
    pub fn get_by_id(&self, id: BodyId) -> (found: Option<&Body>)
        ensures
            match found {
                Some(body) => self@.lookup(id) == Some(body@),
                None => self@.lookup(id) is None,
            },
    {
        match self.tier0.get(&id) {
            Some(body) => Some(body),
            None => self.tier1.get(&id),
        }
    }

    /// The body kept under `id`, to be changed in place.
    pub fn get_mut_by_id(&mut self, id: BodyId) -> (found: Option<&mut Body>)
        ensures
            match found {
                Some(body) => old(self)@.lookup(id) == Some(body@) && final(self)@ == old(
                    self,
                )@.replace(id, final(body)@),
                None => old(self)@.lookup(id) is None && final(self)@ == old(self)@,
            },
    {
        proof {
            assert(old(self).tier0@.remove(id) =~= old(self).tier0@ || old(self).tier0@.contains_key(id));
            assert(old(self).tier1@.remove(id) =~= old(self).tier1@ || old(self).tier1@.contains_key(id));
        }
        if self.tier0.contains_key(&id) {
            match self.tier0.entry(id) {
                Entry::Occupied(entry) => {
                    let body = entry.into_mut();
                    proof {
                        lemma_states_insert(old(self).tier0@, id, *final(body));
                    }
                    Some(body)
                },
                Entry::Vacant(_) => None,
            }
        } else {
            match self.tier1.entry(id) {
                Entry::Occupied(entry) => {
                    let body = entry.into_mut();
                    proof {
                        lemma_states_insert(old(self).tier1@, id, *final(body));
                    }
                    Some(body)
                },
                Entry::Vacant(_) => None,
            }
        }
    }

    /// Takes the body kept under `id` out of both tiers. Where there is none,
    /// nothing changes.
    pub fn remove(&mut self, id: BodyId)
        ensures
            final(self)@ == old(self)@.remove(id),
    {
        let _ = self.tier0.remove(&id);
        let _ = self.tier1.remove(&id);
        proof {
            lemma_states_remove(old(self).tier0@, id);
            lemma_states_remove(old(self).tier1@, id);
        }
    }

    /// The number of bodies.
    pub fn len(&self) -> (count: usize)
        requires
            self@.count() <= usize::MAX,
        ensures
            count == self@.count(),
    {
        proof {
            lemma_states_len(self.tier0@);
            lemma_states_len(self.tier1@);
        }
        proof {
            lemma_states_len(self.tier0@);
            lemma_states_len(self.tier1@);
        }
        self.tier0.len() + self.tier1.len()
    }
}

} // verus!
