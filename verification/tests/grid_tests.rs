use diffusion_grid::grid::{BoundaryPolicy, Grid, StepError, ABS_SCALE, PROB_SCALE, TOTAL_LIMIT};

fn mass_of(g: &Grid, x: usize, y: usize) -> f64 {
    let total = g.bounded_total().expect("total within range") as f64;
    g.mass_weight(x, y) as f64 / total
}

#[test]
fn wrap_unit_mass_spreads_evenly() {
    // 5x5 torus, no absorbers, unit mass at the center: after one step the
    // center and its four modular neighbors each hold a fifth of the mass.
    let mut g = Grid::new(5, BoundaryPolicy::Wrap);
    g.place_mass(2, 2, 1);
    let s = g.step().expect("step succeeds");
    assert_eq!(s.num, 1);
    assert_eq!(s.den, 1);
    assert_eq!(g.bounded_total(), Some(5));
    for &(x, y) in &[(2, 2), (2, 1), (2, 3), (1, 2), (3, 2)] {
        assert_eq!(g.mass_weight(x, y), 1);
        assert!((mass_of(&g, x, y) - 0.2).abs() < 1e-9);
    }
    for x in 0..5 {
        for y in 0..5 {
            let near = matches!((x, y), (2, 2) | (2, 1) | (2, 3) | (1, 2) | (3, 2));
            if !near {
                assert_eq!(g.mass_weight(x, y), 0);
            }
        }
    }
}

#[test]
fn clamp_corner_uses_denominator_three() {
    // 3x3 bounded grid, unit mass in the corner: the corner keeps a third and
    // its two present neighbors receive a third each.
    let mut g = Grid::new(3, BoundaryPolicy::Clamp);
    g.place_mass(0, 0, 1);
    let s = g.step().expect("step succeeds");
    assert_eq!(s.num, 1);
    assert_eq!(s.den, 1);
    assert_eq!(g.bounded_total(), Some(3));
    for &(x, y) in &[(0, 0), (1, 0), (0, 1)] {
        assert_eq!(g.mass_weight(x, y), 1);
        assert!((mass_of(&g, x, y) - 1.0 / 3.0).abs() < 1e-9);
    }
    for &(x, y) in &[(2, 0), (0, 2), (1, 1), (2, 1), (1, 2), (2, 2)] {
        assert_eq!(g.mass_weight(x, y), 0);
    }
}

#[test]
fn clamp_edge_uses_denominator_four() {
    // Unit mass on a non-corner edge cell of a bounded grid spreads over
    // itself and three neighbors, a quarter each.
    let mut g = Grid::new(3, BoundaryPolicy::Clamp);
    g.place_mass(1, 0, 1);
    let s = g.step().expect("step succeeds");
    assert_eq!(s.num, 1);
    assert_eq!(s.den, 1);
    assert_eq!(g.bounded_total(), Some(4));
    for &(x, y) in &[(1, 0), (0, 0), (2, 0), (1, 1)] {
        assert_eq!(g.mass_weight(x, y), 1);
        assert!((mass_of(&g, x, y) - 0.25).abs() < 1e-9);
    }
}

#[test]
fn clamp_interior_uses_denominator_five() {
    // Unit mass in the interior of a bounded grid spreads over itself and all
    // four neighbors, a fifth each: the same denominator Wrap always uses.
    let mut g = Grid::new(3, BoundaryPolicy::Clamp);
    g.place_mass(1, 1, 1);
    let s = g.step().expect("step succeeds");
    assert_eq!(s.num, 1);
    assert_eq!(s.den, 1);
    assert_eq!(g.bounded_total(), Some(5));
    for &(x, y) in &[(1, 1), (0, 1), (2, 1), (1, 0), (1, 2)] {
        assert_eq!(g.mass_weight(x, y), 1);
        assert!((mass_of(&g, x, y) - 0.2).abs() < 1e-9);
    }
}

#[test]
fn wrap_two_by_two_merges_modular_neighbors() {
    // On a 2x2 torus a cell's north and south neighbor coincide, so that
    // neighbor receives two of the five shares.
    let mut g = Grid::new(2, BoundaryPolicy::Wrap);
    g.place_mass(0, 0, 1);
    let s = g.step().expect("step succeeds");
    assert_eq!(s.num, 1);
    assert_eq!(s.den, 1);
    assert_eq!(g.mass_weight(0, 0), 1);
    assert_eq!(g.mass_weight(0, 1), 2);
    assert_eq!(g.mass_weight(1, 0), 2);
    assert_eq!(g.mass_weight(1, 1), 0);
    assert_eq!(g.bounded_total(), Some(5));
}

#[test]
fn conservation_without_absorbers_over_many_steps() {
    // With no absorbers every step's scale factor is exactly one, on both
    // boundary policies: diffusion alone conserves the total mass.
    for policy in [BoundaryPolicy::Wrap, BoundaryPolicy::Clamp] {
        let mut g = Grid::new(6, policy);
        g.place_mass(1, 2, 7);
        g.place_mass(5, 0, 3);
        for _ in 0..5 {
            let s = g.step().expect("step succeeds");
            assert_eq!(s.num, s.den);
            assert_eq!(s.num, 1);
        }
        let total = g.bounded_total().expect("total in range");
        let mut sum = 0u64;
        for x in 0..6 {
            for y in 0..6 {
                sum += g.mass_weight(x, y);
            }
        }
        assert_eq!(sum, total);
    }
}

#[test]
fn absorber_makes_scale_strictly_less_than_one() {
    // A half-efficient absorber sitting on the only massive cell: the center
    // keeps 12/60 of the mass and loses half of that to the absorber, the
    // four edge cells receive 12/60 each, so 54/60 = 9/10 survives.
    let mut g = Grid::new(3, BoundaryPolicy::Clamp);
    g.place_mass(1, 1, 1);
    g.set_absorber(1, 1, 500_000);
    let s = g.step().expect("step succeeds");
    assert_eq!(s.num, 9);
    assert_eq!(s.den, 10);
    assert!((s.num as f64 / s.den as f64) < 1.0);
    assert_eq!(g.mass_weight(1, 1), 1);
    assert_eq!(g.mass_weight(0, 1), 2);
    assert_eq!(g.mass_weight(2, 1), 2);
    assert_eq!(g.mass_weight(1, 0), 2);
    assert_eq!(g.mass_weight(1, 2), 2);
    assert_eq!(g.bounded_total(), Some(9));
}

#[test]
fn masses_sum_to_one_after_step() {
    // Post-step normalization: the cell masses sum to one.
    let mut g = Grid::new(4, BoundaryPolicy::Wrap);
    g.place_mass(1, 1, 5);
    g.place_mass(3, 2, 11);
    g.set_absorber(1, 1, 250_000);
    g.step().expect("step succeeds");
    let mut sum = 0.0f64;
    for x in 0..4 {
        for y in 0..4 {
            sum += mass_of(&g, x, y);
        }
    }
    assert!((sum - 1.0).abs() < 1e-9);
}

#[test]
fn zero_grid_reports_extinguished() {
    // An all-zero grid has a zero step total: the step must report the
    // degenerate state instead of dividing by it.
    let mut g = Grid::new(3, BoundaryPolicy::Clamp);
    let r = g.step();
    assert_eq!(r.unwrap_err(), StepError::Extinguished);
    for x in 0..3 {
        for y in 0..3 {
            assert_eq!(g.mass_weight(x, y), 0);
        }
    }
}

#[test]
fn full_absorption_reports_extinguished() {
    // Absorption of one everywhere reachable: the step returns a zero scale
    // as extinction, and leaves the grid unchanged.
    let mut g = Grid::new(4, BoundaryPolicy::Wrap);
    for x in 0..4 {
        for y in 0..4 {
            g.set_absorber(x, y, ABS_SCALE);
        }
    }
    g.place_mass(1, 1, 1);
    let r = g.step();
    assert_eq!(r.unwrap_err(), StepError::Extinguished);
    assert_eq!(g.mass_weight(1, 1), 1);
    assert_eq!(g.absorption(2, 1), ABS_SCALE);
}

#[test]
fn oversized_total_reports_overflow() {
    let mut g = Grid::new(2, BoundaryPolicy::Clamp);
    g.place_mass(0, 0, TOTAL_LIMIT);
    g.place_mass(1, 1, TOTAL_LIMIT);
    assert_eq!(g.bounded_total(), None);
    let r = g.step();
    assert_eq!(r.unwrap_err(), StepError::Overflow);
    assert_eq!(g.mass_weight(0, 0), TOTAL_LIMIT);
    assert_eq!(g.mass_weight(1, 1), TOTAL_LIMIT);
}

#[test]
fn placement_and_accessors() {
    let mut g = Grid::new(5, BoundaryPolicy::Clamp);
    assert_eq!(g.side_len(), 5);
    assert_eq!(g.policy(), BoundaryPolicy::Clamp);
    assert!(g.is_well_formed());
    assert_eq!(g.bounded_total(), Some(0));
    g.place_mass(3, 1, 42);
    assert_eq!(g.mass_weight(3, 1), 42);
    g.place_mass(3, 1, 7);
    assert_eq!(g.mass_weight(3, 1), 7, "placement overwrites, it does not add");
    g.set_absorber(3, 1, 123);
    assert_eq!(g.absorption(3, 1), 123);
    assert_eq!(g.mass_weight(3, 1), 7);
    assert_eq!(g.bounded_total(), Some(7));
}

#[test]
fn seeding_with_probability_zero_changes_nothing() {
    let mut rng = rand::rng();
    let mut g = Grid::new(4, BoundaryPolicy::Wrap);
    g.set_absorber(2, 2, 777);
    g.seed_absorbers(&mut rng, 0, 900_000);
    for x in 0..4 {
        for y in 0..4 {
            let expected = if (x, y) == (2, 2) { 777 } else { 0 };
            assert_eq!(g.absorption(x, y), expected);
        }
    }
}

#[test]
fn seeding_with_probability_one_marks_every_cell() {
    let mut rng = rand::rng();
    let mut g = Grid::new(4, BoundaryPolicy::Wrap);
    g.seed_absorbers(&mut rng, PROB_SCALE, 300_000);
    for x in 0..4 {
        for y in 0..4 {
            assert_eq!(g.absorption(x, y), 300_000);
        }
    }
}

#[test]
fn seeding_layers_only_over_its_own_draws() {
    // Seeded absorption is either the old value or the new efficiency.
    let mut rng = rand::rng();
    let mut g = Grid::new(8, BoundaryPolicy::Wrap);
    g.seed_absorbers(&mut rng, PROB_SCALE / 2, 300_000);
    g.seed_absorbers(&mut rng, PROB_SCALE / 2, 600_000);
    for x in 0..8 {
        for y in 0..8 {
            let a = g.absorption(x, y);
            assert!(a == 0 || a == 300_000 || a == 600_000);
        }
    }
}

#[test]
fn requantize_floors_weights_exactly() {
    let mut g = Grid::new(2, BoundaryPolicy::Wrap);
    g.place_mass(0, 0, 1);
    g.place_mass(1, 0, 3);
    assert_eq!(g.total_weight(), Some(4));
    g.requantize(10).expect("requantize succeeds");
    // Each weight becomes weight * 10 / 4, rounded down.
    assert_eq!(g.mass_weight(0, 0), 2);
    assert_eq!(g.mass_weight(1, 0), 7);
    assert_eq!(g.mass_weight(0, 1), 0);
    assert_eq!(g.mass_weight(1, 1), 0);
    assert_eq!(g.total_weight(), Some(9));
}

#[test]
fn requantize_on_zero_grid_reports_extinguished() {
    let mut g = Grid::new(3, BoundaryPolicy::Clamp);
    let r = g.requantize(100);
    assert_eq!(r.unwrap_err(), StepError::Extinguished);
}

#[test]
fn requantize_on_oversized_grid_reports_overflow() {
    let mut g = Grid::new(2, BoundaryPolicy::Clamp);
    g.place_mass(0, 0, u64::MAX);
    g.place_mass(1, 1, u64::MAX);
    assert_eq!(g.total_weight(), None);
    let r = g.requantize(100);
    assert_eq!(r.unwrap_err(), StepError::Overflow);
    assert_eq!(g.mass_weight(0, 0), u64::MAX);
    assert_eq!(g.mass_weight(1, 1), u64::MAX);
}

#[test]
fn long_run_survives_with_requantization() {
    // Exact weights outgrow the stepping range after a few bounded-grid
    // steps; re-expressing them at a fixed resolution lets the run continue.
    let mut g = Grid::new(7, BoundaryPolicy::Clamp);
    g.place_mass(3, 3, 1);
    g.set_absorber(2, 2, 300_000);
    let mut steps = 0u32;
    for _ in 0..100 {
        if g.bounded_total().is_none() {
            g.requantize(1_000_000_000).expect("requantize succeeds");
        }
        g.step().expect("step succeeds");
        steps += 1;
    }
    assert_eq!(steps, 100);
    let total = g.total_weight().expect("total fits after a step") as f64;
    let mut sum = 0.0f64;
    for x in 0..7 {
        for y in 0..7 {
            sum += g.mass_weight(x, y) as f64 / total;
        }
    }
    assert!((sum - 1.0).abs() < 1e-9);
}
