use orbital::body::bodies_to_map;
use orbital::body::Body;
use orbital::body::BodyId;
use orbital::body::Color;
use orbital::body::IdGenerator;
use orbital::body::OrbitalBodies;
use orbital::physics::acceleration_plan;
use orbital::physics::cross_pairs;
use orbital::physics::drift;
use orbital::physics::euler::Euler;
use orbital::physics::kick;
use orbital::physics::leapfrog::Leapfrog;
use orbital::physics::leapfrog::LeapfrogKDK;
use orbital::physics::movable;
use orbital::physics::potential_pairs;
use orbital::physics::update_acceleration;
use orbital::physics::Kinematics;
use orbital::scalar::Scalar;

const WHITE: Color = Color { r: 255, g: 255, b: 255, a: 255 };

const G: f64 = 6.6674 * 1E-11;

fn s(x: f64) -> Scalar {
    Scalar::from_bits(x.to_bits())
}

fn f(x: Scalar) -> f64 {
    f64::from_bits(x.to_bits())
}

fn v(x: f64, y: f64) -> (Scalar, Scalar) {
    (s(x), s(y))
}

fn body(ids: &mut IdGenerator, mass: f64, pos: (f64, f64), velocity: (f64, f64), fixed: bool) -> Body {
    Body::new(
        ids,
        s(mass),
        v(pos.0, pos.1),
        s(1.),
        s(1.),
        WHITE,
        v(velocity.0, velocity.1),
        v(0., 0.),
        fixed,
    )
}

fn sorted(mut ids: Vec<BodyId>) -> Vec<BodyId> {
    ids.sort();
    ids
}

fn system() -> OrbitalBodies {
    let mut ids = IdGenerator::new();
    let sun = body(&mut ids, 100., (0., 0.), (0., 0.), true);
    let planet = body(&mut ids, 10., (10., 0.), (0., 1.), false);
    let moon = body(&mut ids, 1., (11., 0.), (0., 2.), false);
    let rock = body(&mut ids, 0.5, (20., 0.), (0., 3.), false);
    let dust = body(&mut ids, 0.25, (30., 0.), (0., 4.), false);
    let buoy = body(&mut ids, 0.125, (40., 0.), (0., 5.), true);
    OrbitalBodies {
        tier0: bodies_to_map(vec![sun, planet, moon]),
        tier1: bodies_to_map(vec![rock, dust, buoy]),
    }
}

#[test]
fn the_schemes_have_their_names() {
    assert_eq!(Euler.name(), "Euler");
    assert_eq!(Leapfrog.name(), "Leapfrog");
    assert_eq!(LeapfrogKDK.name(), "Leapfrog (KDK)");
}

#[test]
fn primary_bodies_pull_on_every_body_but_themselves() {
    let bodies = system();
    let plan = acceleration_plan(&bodies);
    assert_eq!(sorted(plan.tier0.iter().map(|pull| pull.pullee).collect()), vec![0, 1, 2]);
    assert_eq!(sorted(plan.tier1.iter().map(|pull| pull.pullee).collect()), vec![3, 4, 5]);
    for pull in &plan.tier0 {
        let expected: Vec<BodyId> = match pull.pullee {
            0 => vec![],
            1 => vec![0, 2],
            _ => vec![0, 1],
        };
        assert_eq!(sorted(pull.pulling.clone()), expected);
    }
    for pull in &plan.tier1 {
        let expected: Vec<BodyId> = if pull.pullee == 5 { vec![] } else { vec![0, 1, 2] };
        assert_eq!(sorted(pull.pulling.clone()), expected);
    }
}

#[test]
fn without_primary_bodies_nothing_pulls() {
    let mut ids = IdGenerator::new();
    let rock = body(&mut ids, 0.5, (20., 0.), (0., 3.), false);
    let dust = body(&mut ids, 0.25, (30., 0.), (0., 4.), false);
    let mut bodies =
        OrbitalBodies { tier0: bodies_to_map(vec![]), tier1: bodies_to_map(vec![rock, dust]) };
    let plan = acceleration_plan(&bodies);
    assert!(plan.tier0.is_empty());
    assert_eq!(plan.tier1.len(), 2);
    assert!(plan.tier1.iter().all(|pull| pull.pulling.is_empty()));
    let sums: Vec<(BodyId, (Scalar, Scalar))> = plan
        .tier1
        .iter()
        .map(|pull| (pull.pullee, v(pull.pulling.len() as f64 * 1., 0.)))
        .collect();
    let chart = update_acceleration(&mut bodies, &sums);
    assert_eq!(chart.len(), 2);
    for body in bodies.iter() {
        assert_eq!(body.accel, v(0., 0.));
    }
}

#[test]
fn fixed_bodies_are_not_among_those_that_a_step_advances() {
    let ids = movable(&system());
    assert_eq!(sorted(ids.tier0), vec![1, 2]);
    assert_eq!(sorted(ids.tier1), vec![3, 4]);
}

#[test]
fn each_pair_counts_once_for_the_potential_energy() {
    let pairs = potential_pairs(&system());
    assert_eq!(pairs.within.len(), 1);
    let (a, b) = pairs.within[0];
    assert_eq!(sorted(vec![a, b]), vec![1, 2]);
    assert_eq!(pairs.across.len(), 4);
    let mut across = pairs.across.clone();
    across.sort();
    assert_eq!(across, vec![(1, 3), (1, 4), (2, 3), (2, 4)]);
}

#[test]
fn cross_pairs_go_member_by_member() {
    assert_eq!(cross_pairs(&vec![1, 2], &vec![7, 8, 9]), vec![(1, 7), (1, 8), (1, 9), (2, 7), (2, 8), (2, 9)]);
    assert!(cross_pairs(&vec![], &vec![7]).is_empty());
    assert!(cross_pairs(&vec![7], &vec![]).is_empty());
}

#[test]
fn drift_moves_free_bodies_and_records_their_positions() {
    let mut bodies = system();
    drift(&mut bodies, &vec![(1, v(1., 1.)), (0, v(5., 5.)), (3, v(2., 2.)), (99, v(0., 0.)), (1, v(3., 3.)), (5, v(6., 6.))]);
    assert_eq!(bodies.get_by_id(1).unwrap().pos(), v(3., 3.));
    assert_eq!(bodies.get_by_id(1).unwrap().history(), vec![v(1., 1.), v(3., 3.)]);
    assert_eq!(bodies.get_by_id(3).unwrap().pos(), v(2., 2.));
    assert_eq!(bodies.get_by_id(0).unwrap().pos(), v(0., 0.));
    assert!(bodies.get_by_id(0).unwrap().history().is_empty());
    assert_eq!(bodies.get_by_id(5).unwrap().pos(), v(40., 0.));
    assert_eq!(bodies.get_by_id(2).unwrap().pos(), v(11., 0.));
    assert_eq!(bodies.len(), 6);
}

#[test]
fn kick_changes_the_velocity_of_free_bodies_only() {
    let mut bodies = system();
    kick(&mut bodies, &vec![(2, v(1., 1.)), (0, v(5., 5.)), (5, v(6., 6.)), (99, v(0., 0.)), (4, v(7., 7.))]);
    assert_eq!(bodies.get_by_id(2).unwrap().velocity, v(1., 1.));
    assert_eq!(bodies.get_by_id(4).unwrap().velocity, v(7., 7.));
    assert_eq!(bodies.get_by_id(0).unwrap().velocity, v(0., 0.));
    assert_eq!(bodies.get_by_id(5).unwrap().velocity, v(0., 5.));
    assert_eq!(bodies.get_by_id(1).unwrap().velocity, v(0., 1.));
    assert_eq!(bodies.get_by_id(2).unwrap().pos(), v(11., 0.));
    assert!(bodies.get_by_id(2).unwrap().history().is_empty());
}

#[test]
fn accelerations_are_written_and_handed_back() {
    let mut bodies = system();
    let chart = update_acceleration(
        &mut bodies,
        &vec![(1, v(1., 2.)), (0, v(0., 0.5)), (42, v(9., 9.)), (1, v(3., 4.)), (4, v(5., 6.))],
    );
    assert_eq!(chart.len(), 3);
    assert_eq!(chart.get(&1), Some(&v(3., 4.)));
    assert_eq!(chart.get(&0), Some(&v(0., 0.5)));
    assert_eq!(chart.get(&4), Some(&v(5., 6.)));
    assert_eq!(chart.get(&42), None);
    assert_eq!(bodies.get_by_id(1).unwrap().accel, v(3., 4.));
    assert_eq!(bodies.get_by_id(0).unwrap().accel, v(0., 0.5));
    assert_eq!(bodies.get_by_id(4).unwrap().accel, v(5., 6.));
    assert_eq!(bodies.get_by_id(2).unwrap().accel, v(0., 0.));
}

fn distance(a: &Body, b: &Body) -> (f64, f64) {
    let dx2 = (f(a.pos().0) - f(b.pos().0)).powf(2.0);
    let dy2 = (f(a.pos().1) - f(b.pos().1)).powf(2.0);
    let sum = dx2 + dy2;
    (sum, sum.sqrt())
}

fn pairwise_acceleration(pullee: &Body, pulling: &Body) -> (f64, f64) {
    let (d2, _) = distance(pullee, pulling);
    let (mi, mj) = (f(pullee.mass), f(pulling.mass));
    let softening = (0.7 * (mi.min(mj) / mi.max(mj)).sqrt()).min(1.)
        * (f(pullee.physical_radius) + f(pulling.physical_radius));
    let softened_distance = (d2 + softening.powf(2.)).powf(1.5);
    let constant = -G * mj;
    (
        constant * (f(pullee.pos().0) - f(pulling.pos().0)) / softened_distance,
        constant * (f(pullee.pos().1) - f(pulling.pos().1)) / softened_distance,
    )
}

/// The accelerations and the potential energy of the bodies as they stand,
/// summed up along the library's plan.
fn accelerate(bodies: &mut OrbitalBodies) -> f64 {
    let plan = acceleration_plan(bodies);
    let mut sums = Vec::new();
    for pull in plan.tier0.iter().chain(plan.tier1.iter()) {
        let pullee = bodies.get_by_id(pull.pullee).unwrap();
        let mut sum = (0., 0.);
        for id in &pull.pulling {
            let (x, y) = pairwise_acceleration(pullee, bodies.get_by_id(*id).unwrap());
            sum = (sum.0 + x, sum.1 + y);
        }
        sums.push((pull.pullee, v(sum.0, sum.1)));
    }
    update_acceleration(bodies, &sums);
    let pairs = potential_pairs(bodies);
    let mut potential = 0.;
    for (a, b) in pairs.within.iter().chain(pairs.across.iter()) {
        let (a, b) = (bodies.get_by_id(*a).unwrap(), bodies.get_by_id(*b).unwrap());
        potential += -G * f(a.mass) * f(b.mass) / distance(a, b).1;
    }
    potential
}

fn kinetic(bodies: &OrbitalBodies) -> f64 {
    let ids = movable(bodies);
    ids.tier0
        .iter()
        .chain(ids.tier1.iter())
        .map(|id| {
            let b = bodies.get_by_id(*id).unwrap();
            0.5 * f(b.mass) * (f(b.velocity.0).powf(2.) + f(b.velocity.1).powf(2.))
        })
        .sum()
}

/// One leapfrog step in its position form; hands back the total energy.
fn leapfrog(bodies: &mut OrbitalBodies, dt: f64) -> f64 {
    let ids = movable(bodies);
    let free: Vec<BodyId> = ids.tier0.iter().chain(ids.tier1.iter()).copied().collect();
    let before: Vec<(f64, f64)> = free
        .iter()
        .map(|id| {
            let b = bodies.get_by_id(*id).unwrap();
            (f(b.accel.0), f(b.accel.1))
        })
        .collect();
    let moves = free
        .iter()
        .zip(&before)
        .map(|(id, (ax, ay))| {
            let b = bodies.get_by_id(*id).unwrap();
            let x = f(b.pos().0) + f(b.velocity.0) * dt + 0.5 * ax * dt.powf(2.0);
            let y = f(b.pos().1) + f(b.velocity.1) * dt + 0.5 * ay * dt.powf(2.0);
            (*id, v(x, y))
        })
        .collect();
    drift(bodies, &moves);
    let potential = accelerate(bodies);
    let kicks = free
        .iter()
        .zip(&before)
        .map(|(id, (ax, ay))| {
            let b = bodies.get_by_id(*id).unwrap();
            let vx = f(b.velocity.0) + 0.5 * (ax + f(b.accel.0)) * dt;
            let vy = f(b.velocity.1) + 0.5 * (ay + f(b.accel.1)) * dt;
            (*id, v(vx, vy))
        })
        .collect();
    kick(bodies, &kicks);
    kinetic(bodies) + potential
}

fn sun_and_earth(sun_fixed: bool) -> OrbitalBodies {
    let mut ids = IdGenerator::new();
    let sun = Body::new(
        &mut ids,
        s(1.989e30),
        v(0., 0.),
        s(6.96e8),
        s(20.),
        WHITE,
        v(0., 0.),
        v(0., 0.),
        sun_fixed,
    );
    let earth = Body::new(
        &mut ids,
        s(5.972e24),
        v(1.496e11, 0.),
        s(6.371e6),
        s(10.),
        WHITE,
        v(0., 29780.),
        v(0., 0.),
        false,
    );
    OrbitalBodies { tier0: bodies_to_map(vec![sun, earth]), tier1: bodies_to_map(vec![]) }
}

#[test]
fn a_year_of_leapfrog_steps_closes_the_orbit() {
    let mut bodies = sun_and_earth(true);
    accelerate(&mut bodies);
    for _ in 0..365 {
        leapfrog(&mut bodies, 86400.);
    }
    let sun = bodies.get_by_id(0).unwrap();
    let earth = bodies.get_by_id(1).unwrap();
    assert_eq!(sun.pos(), v(0., 0.));
    assert_eq!(sun.velocity, v(0., 0.));
    let d = distance(sun, earth).1;
    assert!((d - 1.496e11).abs() / 1.496e11 < 0.01);
    let start = (f(earth.pos().0) - 1.496e11, f(earth.pos().1));
    assert!((start.0.powf(2.) + start.1.powf(2.)).sqrt() / 1.496e11 < 0.05);
    assert_eq!(earth.history().len(), 365);
}

#[test]
fn leapfrog_keeps_the_energy_of_two_bodies_within_bounds() {
    let mut bodies = sun_and_earth(false);
    accelerate(&mut bodies);
    let initial = leapfrog(&mut bodies, 3600.);
    let mut worst: f64 = 0.;
    for _ in 0..3000 {
        let energy = leapfrog(&mut bodies, 3600.);
        worst = worst.max(((energy - initial) / initial).abs());
    }
    assert!(worst < 0.01);
    assert_eq!(bodies.get_by_id(1).unwrap().history().len(), 1000);
}

/// One explicit Euler step; hands back the total energy.
fn euler(bodies: &mut OrbitalBodies, dt: f64) -> f64 {
    let potential = accelerate(bodies);
    let ids = movable(bodies);
    let free: Vec<BodyId> = ids.tier0.iter().chain(ids.tier1.iter()).copied().collect();
    let kicks = free
        .iter()
        .map(|id| {
            let b = bodies.get_by_id(*id).unwrap();
            (*id, v(f(b.velocity.0) + f(b.accel.0) * dt, f(b.velocity.1) + f(b.accel.1) * dt))
        })
        .collect();
    kick(bodies, &kicks);
    let moves = free
        .iter()
        .map(|id| {
            let b = bodies.get_by_id(*id).unwrap();
            (*id, v(f(b.pos().0) + f(b.velocity.0) * dt, f(b.pos().1) + f(b.velocity.1) * dt))
        })
        .collect();
    drift(bodies, &moves);
    kinetic(bodies) + potential
}

#[test]
fn euler_steps_lose_more_energy_than_leapfrog_steps() {
    let mut stepped = sun_and_earth(false);
    accelerate(&mut stepped);
    let mut leaped = sun_and_earth(false);
    accelerate(&mut leaped);
    let euler_start = euler(&mut stepped, 86400.);
    let leapfrog_start = leapfrog(&mut leaped, 86400.);
    let mut euler_end = euler_start;
    let mut leapfrog_end = leapfrog_start;
    for _ in 0..2000 {
        euler_end = euler(&mut stepped, 86400.);
        leapfrog_end = leapfrog(&mut leaped, 86400.);
    }
    let euler_drift = ((euler_end - euler_start) / euler_start).abs();
    let leapfrog_drift = ((leapfrog_end - leapfrog_start) / leapfrog_start).abs();
    assert!(leapfrog_drift < 0.01);
    assert!(euler_drift > leapfrog_drift);
}

#[test]
fn leapfrog_steps_backwards_retrace_the_orbit() {
    let mut bodies = sun_and_earth(true);
    accelerate(&mut bodies);
    for _ in 0..100 {
        leapfrog(&mut bodies, 3600.);
    }
    let turned = bodies.get_by_id(1).unwrap().pos();
    assert!(f(turned.1) > 1e9);
    for _ in 0..100 {
        leapfrog(&mut bodies, -3600.);
    }
    let earth = bodies.get_by_id(1).unwrap();
    assert!((f(earth.pos().0) - 1.496e11).abs() / 1.496e11 < 1e-9);
    assert!(f(earth.pos().1).abs() / 1.496e11 < 1e-9);
    assert!((f(earth.velocity.1) - 29780.).abs() / 29780. < 1e-9);
    assert_eq!(earth.history().len(), 200);
}
