use orbital::body::bodies_to_map;
use orbital::body::Body;
use orbital::body::BodyId;
use orbital::body::Color;
use orbital::body::IdGenerator;
use orbital::body::OrbitalBodies;
use orbital::physics::collisions::append_collision;
use orbital::physics::collisions::apply_collisions;
use orbital::physics::collisions::bin_bodies;
use orbital::physics::collisions::candidate_pairs_of_bins;
use orbital::physics::collisions::candidate_pairs_of_slice;
use orbital::physics::collisions::compute_collisions;
use orbital::physics::collisions::handle_collisions;
use orbital::physics::collisions::pairs_that_may_collide;
use orbital::physics::collisions::Cell;
use orbital::physics::collisions::CollisionResult;
use orbital::physics::collisions::Contact;
use orbital::physics::collisions::Merger;
use orbital::scalar::Scalar;

const WHITE: Color = Color { r: 255, g: 255, b: 255, a: 255 };

fn s(x: f64) -> Scalar {
    Scalar::from_bits(x.to_bits())
}

fn f(x: Scalar) -> f64 {
    f64::from_bits(x.to_bits())
}

fn v(x: f64, y: f64) -> (Scalar, Scalar) {
    (s(x), s(y))
}

/// The cells of the bodies within `max_distance` of the origin, and the number
/// of columns of the grid that holds them: the arithmetic that the library
/// leaves to its caller.
fn grid(bodies: &OrbitalBodies, max_distance: f64, bin_width: f64) -> (Vec<Cell>, usize) {
    let mut in_range: Vec<(BodyId, f64, f64)> = Vec::new();
    for body in bodies.iter() {
        let (x, y) = (f(body.pos().0), f(body.pos().1));
        if (x.powf(2.) + y.powf(2.)).sqrt() < max_distance {
            in_range.push((body.id(), x, y));
        }
    }
    if in_range.is_empty() {
        return (Vec::new(), 0);
    }
    let mut reach: f64 = 0.;
    for (_, x, y) in &in_range {
        reach = reach.max(x.abs().max(y.abs()));
    }
    let width = reach * 2.0;
    let bin_count = (width / bin_width) as usize;
    let offset = width / 2.;
    let cells = in_range
        .iter()
        .map(|(id, x, y)| Cell {
            id: *id,
            column: ((x + offset) / bin_width) as usize,
            row: ((y + offset) / bin_width) as usize,
        })
        .collect();
    (cells, bin_count)
}

#[test]
fn test_bin_bodies() {
    fn body(ids: &mut IdGenerator, x: i32, y: i32) -> Body {
        Body::new(
            ids,
            s(0.),
            (s(x as f64), s(y as f64)),
            s(1.),
            s(1.),
            WHITE,
            (s(0.), s(0.)),
            (s(0.), s(0.)),
            false,
        )
    }

    let mut ids = IdGenerator::new();
    let b0 = body(&mut ids, -10, -10);
    let b1 = body(&mut ids, -5, -5);
    let b2 = body(&mut ids, 5, 5);
    let b3 = body(&mut ids, 10, 10);
    let b4 = body(&mut ids, 0, 0);
    let b5 = body(&mut ids, 2, 2);
    let b6 = body(&mut ids, 1, 1);
    let b6_id = *&b6.id();

    let bodies = OrbitalBodies {
        tier0: bodies_to_map(vec![b0, b1, b2, b3, b4, b5, b6]),
        tier1: bodies_to_map(vec![]),
    };

    let (cells, bin_count) = grid(&bodies, 100., 2.);
    let binned = bin_bodies(&cells, bin_count);

    assert!(
        binned.iter().all(|b| b.len() <= 1 || b.contains(&b6_id)),
        "There should not be more than a body per bin"
    );
    assert_eq!(bin_count, 10);
    assert_eq!(binned.len(), 100);
    assert_eq!(binned.iter().map(|b| b.len()).sum::<usize>(), 7);
    assert_eq!(binned[0], vec![0]);
    assert_eq!(binned[22], vec![1]);
    assert_eq!(binned[77], vec![2]);
    assert_eq!(binned[99], vec![3]);
    assert_eq!(binned[66], vec![5]);
    let mut shared = binned[55].clone();
    shared.sort();
    assert_eq!(shared, vec![4, 6]);
}

#[test]
fn a_body_past_the_edge_falls_into_the_last_column_and_row() {
    let cells = vec![
        Cell { id: 7, column: 3, row: 0 },
        Cell { id: 8, column: 0, row: 3 },
        Cell { id: 9, column: 100, row: 100 },
        Cell { id: 10, column: 1, row: 2 },
    ];
    let bins = bin_bodies(&cells, 3);
    assert_eq!(bins.len(), 9);
    assert_eq!(bins[2], vec![7]);
    assert_eq!(bins[6], vec![8]);
    assert_eq!(bins[8], vec![9]);
    assert_eq!(bins[7], vec![10]);
    assert_eq!(bins.iter().map(|b| b.len()).sum::<usize>(), 4);
}

#[test]
fn a_grid_without_columns_has_no_bins_and_no_pairs() {
    let cells = vec![Cell { id: 1, column: 0, row: 0 }, Cell { id: 2, column: 0, row: 0 }];
    let bins = bin_bodies(&cells, 0);
    assert!(bins.is_empty());
    assert!(candidate_pairs_of_bins(&bins).is_empty());
    let bodies = OrbitalBodies { tier0: bodies_to_map(vec![]), tier1: bodies_to_map(vec![]) };
    let (cells, bin_count) = grid(&bodies, 100., 2.);
    assert_eq!(bin_count, 0);
    assert!(bin_bodies(&cells, bin_count).is_empty());
}

#[test]
fn the_bodies_of_a_bin_keep_their_order() {
    let cells = vec![
        Cell { id: 5, column: 0, row: 0 },
        Cell { id: 3, column: 1, row: 1 },
        Cell { id: 9, column: 0, row: 0 },
        Cell { id: 1, column: 0, row: 0 },
    ];
    let bins = bin_bodies(&cells, 2);
    assert_eq!(bins, vec![vec![5, 9, 1], vec![], vec![], vec![3]]);
}

#[test]
fn every_pair_of_a_slice_is_examined_once() {
    assert!(candidate_pairs_of_slice(&vec![]).is_empty());
    assert!(candidate_pairs_of_slice(&vec![4]).is_empty());
    assert_eq!(candidate_pairs_of_slice(&vec![4, 2]), vec![(4, 2)]);
    assert_eq!(
        candidate_pairs_of_slice(&vec![1, 2, 3, 4]),
        vec![(1, 2), (1, 3), (1, 4), (2, 3), (2, 4), (3, 4)]
    );
}

#[test]
fn no_pair_is_examined_across_two_bins() {
    let bins = vec![vec![1, 2, 3], vec![], vec![4], vec![5, 6]];
    assert_eq!(candidate_pairs_of_bins(&bins), vec![(1, 2), (1, 3), (2, 3), (5, 6)]);
}

#[test]
fn bodies_at_one_position_are_examined_as_an_exhaustive_pass_examines_them() {
    let mut ids = IdGenerator::new();
    let mut all = Vec::new();
    for _ in 0..5 {
        all.push(Body::new(
            &mut ids,
            s(1.),
            v(3., 4.),
            s(1.),
            s(1.),
            WHITE,
            v(0., 0.),
            v(0., 0.),
            false,
        ));
    }
    let bodies = OrbitalBodies { tier0: bodies_to_map(all), tier1: bodies_to_map(vec![]) };
    let (cells, bin_count) = grid(&bodies, 100., 2.);
    assert_eq!(cells.len(), 5);
    let order: Vec<BodyId> = cells.iter().map(|cell| cell.id).collect();
    let bins = bin_bodies(&cells, bin_count);
    assert_eq!(bins.iter().filter(|bin| !bin.is_empty()).count(), 1);
    let by_bins = candidate_pairs_of_bins(&bins);
    assert_eq!(by_bins.len(), 10);
    assert_eq!(by_bins, candidate_pairs_of_slice(&order));
}

fn body(ids: &mut IdGenerator, mass: f64, velocity: (f64, f64), fixed: bool) -> Body {
    Body::new(
        ids,
        s(mass),
        v(0., 0.),
        s(1.),
        s(1.),
        WHITE,
        v(velocity.0, velocity.1),
        v(0., 0.),
        fixed,
    )
}

fn merger(a: &Body, b: &Body) -> Merger {
    let (m1, m2) = (f(a.mass), f(b.mass));
    let mass = m1 + m2;
    let vx = (f(a.velocity.0) * m1 + f(b.velocity.0) * m2) / mass;
    let vy = (f(a.velocity.1) * m1 + f(b.velocity.1) * m2) / mass;
    Merger { mass: s(mass), velocity: v(vx, vy) }
}

#[test]
fn the_heavier_body_survives() {
    let mut ids = IdGenerator::new();
    let heavy = body(&mut ids, 10., (1., 0.), false);
    let light = body(&mut ids, 2., (0., 1.), false);
    let merged = Merger { mass: s(12.), velocity: v(0.5, 0.25) };
    let expected = vec![
        CollisionResult::Destroyed { body_id: 1 },
        CollisionResult::Merge { body_id: 0, new_mass: s(12.), new_velocity: v(0.5, 0.25) },
    ];
    let mut collisions = Vec::new();
    append_collision(&heavy, &light, merged, &mut collisions);
    assert_eq!(collisions, expected);
    let mut collisions = Vec::new();
    append_collision(&light, &heavy, merged, &mut collisions);
    assert_eq!(collisions, expected);
}

#[test]
fn of_two_bodies_of_one_mass_the_second_survives() {
    let mut ids = IdGenerator::new();
    let a = body(&mut ids, 5., (0., 0.), false);
    let b = body(&mut ids, 5., (0., 0.), false);
    let merged = Merger { mass: s(10.), velocity: v(0., 0.) };
    let mut collisions = Vec::new();
    append_collision(&a, &b, merged, &mut collisions);
    assert_eq!(
        collisions,
        vec![
            CollisionResult::Destroyed { body_id: 0 },
            CollisionResult::Merge { body_id: 1, new_mass: s(10.), new_velocity: v(0., 0.) },
        ]
    );
    let mut collisions = Vec::new();
    append_collision(&b, &a, merged, &mut collisions);
    assert_eq!(
        collisions,
        vec![
            CollisionResult::Destroyed { body_id: 1 },
            CollisionResult::Merge { body_id: 0, new_mass: s(10.), new_velocity: v(0., 0.) },
        ]
    );
}

#[test]
fn a_destruction_is_recorded_once() {
    let mut ids = IdGenerator::new();
    let small = body(&mut ids, 1., (0., 0.), false);
    let big = body(&mut ids, 10., (0., 0.), false);
    let bigger = body(&mut ids, 20., (0., 0.), false);
    let first = Merger { mass: s(11.), velocity: v(0., 0.) };
    let second = Merger { mass: s(21.), velocity: v(0., 0.) };
    let mut collisions = Vec::new();
    append_collision(&small, &big, first, &mut collisions);
    append_collision(&small, &bigger, second, &mut collisions);
    assert_eq!(
        collisions,
        vec![
            CollisionResult::Destroyed { body_id: 0 },
            CollisionResult::Merge { body_id: 1, new_mass: s(11.), new_velocity: v(0., 0.) },
            CollisionResult::Merge { body_id: 2, new_mass: s(21.), new_velocity: v(0., 0.) },
        ]
    );
}

fn system() -> OrbitalBodies {
    let mut ids = IdGenerator::new();
    let sun = body(&mut ids, 100., (0., 0.), true);
    let planet = body(&mut ids, 10., (2., 0.), false);
    let moon = body(&mut ids, 1., (0., 4.), false);
    let rock = body(&mut ids, 0.5, (1., 1.), false);
    let dust = body(&mut ids, 0.25, (3., 3.), false);
    OrbitalBodies {
        tier0: bodies_to_map(vec![sun, planet, moon]),
        tier1: bodies_to_map(vec![rock, dust]),
    }
}

#[test]
fn contacts_that_name_no_two_bodies_lead_to_nothing() {
    let bodies = system();
    let merged = Merger { mass: s(1.), velocity: v(0., 0.) };
    let contacts = vec![
        Contact { first: 1, second: 1, merged },
        Contact { first: 1, second: 42, merged },
        Contact { first: 42, second: 2, merged },
    ];
    assert!(compute_collisions(&bodies, &contacts).is_empty());
    assert!(compute_collisions(&bodies, &vec![]).is_empty());
}

#[test]
fn secondary_bodies_do_not_collide_with_one_another() {
    let bodies = system();
    let merged = Merger { mass: s(0.75), velocity: v(0., 0.) };
    assert!(compute_collisions(&bodies, &vec![Contact { first: 3, second: 4, merged }]).is_empty());
    assert_eq!(
        compute_collisions(&bodies, &vec![Contact { first: 3, second: 2, merged }]),
        vec![
            CollisionResult::Destroyed { body_id: 3 },
            CollisionResult::Merge { body_id: 2, new_mass: s(0.75), new_velocity: v(0., 0.) },
        ]
    );
}

#[test]
fn a_merge_conserves_mass_and_momentum() {
    let mut bodies = system();
    let merged = merger(bodies.get_by_id(1).unwrap(), bodies.get_by_id(2).unwrap());
    handle_collisions(&mut bodies, &vec![Contact { first: 2, second: 1, merged }]);
    assert!(bodies.get_by_id(2).is_none());
    let planet = bodies.get_by_id(1).unwrap();
    assert_eq!(f(planet.mass), 11.);
    assert_eq!(f(planet.velocity.0), (2. * 10. + 0. * 1.) / 11.);
    assert_eq!(f(planet.velocity.1), (0. * 10. + 4. * 1.) / 11.);
    assert_eq!(bodies.len(), 4);
    let momentum = f(planet.mass) * f(planet.velocity.0);
    assert!((momentum - 20.).abs() < 1e-12);
}

#[test]
fn a_survivor_takes_each_of_its_merges() {
    let mut bodies = system();
    let first = Merger { mass: s(11.), velocity: v(1., 1.) };
    let second = Merger { mass: s(10.5), velocity: v(2., 2.) };
    let contacts =
        vec![Contact { first: 1, second: 2, merged: first }, Contact { first: 3, second: 1, merged: second }];
    let collisions = compute_collisions(&bodies, &contacts);
    assert_eq!(
        collisions,
        vec![
            CollisionResult::Destroyed { body_id: 2 },
            CollisionResult::Merge { body_id: 1, new_mass: s(11.), new_velocity: v(1., 1.) },
            CollisionResult::Destroyed { body_id: 3 },
            CollisionResult::Merge { body_id: 1, new_mass: s(10.5), new_velocity: v(2., 2.) },
        ]
    );
    apply_collisions(&mut bodies, &collisions);
    assert_eq!(bodies.len(), 3);
    assert_eq!(bodies.get_by_id(1).unwrap().mass, s(10.5));
    assert_eq!(bodies.get_by_id(1).unwrap().velocity, v(2., 2.));
}

#[test]
fn a_merge_into_a_destroyed_body_is_passed_over() {
    let mut bodies = system();
    let collisions = vec![
        CollisionResult::Destroyed { body_id: 2 },
        CollisionResult::Merge { body_id: 2, new_mass: s(50.), new_velocity: v(9., 9.) },
        CollisionResult::Destroyed { body_id: 2 },
        CollisionResult::Merge { body_id: 77, new_mass: s(50.), new_velocity: v(9., 9.) },
    ];
    apply_collisions(&mut bodies, &collisions);
    assert!(bodies.get_by_id(2).is_none());
    assert_eq!(bodies.len(), 4);
    assert_eq!(bodies.get_by_id(1).unwrap().mass, s(10.));
}

#[test]
fn nothing_is_merged_into_a_fixed_body() {
    let mut bodies = system();
    let merged = merger(bodies.get_by_id(0).unwrap(), bodies.get_by_id(4).unwrap());
    handle_collisions(&mut bodies, &vec![Contact { first: 0, second: 4, merged }]);
    assert!(bodies.get_by_id(4).is_none());
    let sun = bodies.get_by_id(0).unwrap();
    assert_eq!(sun.mass, s(100.));
    assert_eq!(sun.velocity, v(0., 0.));
}

#[test]
fn a_merge_changes_mass_and_velocity_and_nothing_else() {
    let mut bodies = system();
    bodies.get_mut_by_id(1).unwrap().set_pos(v(7., 8.));
    apply_collisions(
        &mut bodies,
        &vec![CollisionResult::Merge { body_id: 1, new_mass: s(3.), new_velocity: v(5., 6.) }],
    );
    let planet = bodies.get_by_id(1).unwrap();
    assert_eq!(planet.mass, s(3.));
    assert_eq!(planet.velocity, v(5., 6.));
    assert_eq!(planet.pos(), v(7., 8.));
    assert_eq!(planet.history(), vec![v(7., 8.)]);
    assert_eq!(planet.id(), 1);
    assert!(!planet.fixed);
}

#[test]
fn only_pairs_that_may_collide_are_kept() {
    let bodies = system();
    let pairs = vec![(3, 4), (0, 1), (4, 3), (2, 2), (1, 42), (4, 2), (42, 43), (2, 1), (3, 0)];
    assert_eq!(pairs_that_may_collide(&bodies, &pairs), vec![(0, 1), (4, 2), (2, 1), (3, 0)]);
    assert!(pairs_that_may_collide(&bodies, &vec![]).is_empty());
}
