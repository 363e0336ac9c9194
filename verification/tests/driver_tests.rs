use diffusion_grid::driver::Driver;
use diffusion_grid::grid::{BoundaryPolicy, Grid, Scale};

#[test]
fn driver_accumulates_exact_products() {
    let mut d = Driver::new();
    assert_eq!(d.steps_taken(), 0);
    assert_eq!(d.product_num(), 1);
    assert_eq!(d.product_den(), 1);
    assert!(d.record(&Scale { num: 1, den: 2 }));
    assert!(d.record(&Scale { num: 3, den: 4 }));
    assert_eq!(d.steps_taken(), 2);
    assert_eq!(d.product_num(), 3);
    assert_eq!(d.product_den(), 8);
}

#[test]
fn driver_cross_reduces_factors() {
    let mut d = Driver::new();
    assert!(d.record(&Scale { num: 2, den: 3 }));
    assert!(d.record(&Scale { num: 3, den: 2 }));
    assert_eq!(d.product_num(), 1);
    assert_eq!(d.product_den(), 1);
}

#[test]
fn driver_rejects_products_that_no_longer_fit() {
    let mut d = Driver::new();
    assert!(d.record(&Scale { num: 1, den: u64::MAX }));
    let before_num = d.product_num();
    let before_den = d.product_den();
    let before_steps = d.steps_taken();
    assert!(!d.record(&Scale { num: 1, den: 3 }));
    assert_eq!(d.product_num(), before_num);
    assert_eq!(d.product_den(), before_den);
    assert_eq!(d.steps_taken(), before_steps);
}

#[test]
fn run_with_absorbers_depletes_the_product() {
    // A short run: the driver's product of scale factors falls below one, and
    // its reciprocal — the survival estimate — grows above one.
    let mut g = Grid::new(5, BoundaryPolicy::Wrap);
    g.place_mass(2, 2, 1);
    g.set_absorber(2, 2, 250_000);
    let mut d = Driver::new();
    for _ in 0..8 {
        let s = g.step().expect("step succeeds");
        assert!(d.record(&s));
    }
    assert_eq!(d.steps_taken(), 8);
    let product = d.product_num() as f64 / d.product_den() as f64;
    assert!(product < 1.0);
    assert!(product > 0.0);
    let reciprocal = d.product_den() as f64 / d.product_num() as f64;
    assert!(reciprocal > 1.0);
}

#[test]
fn run_without_absorbers_keeps_the_product_at_one() {
    let mut g = Grid::new(5, BoundaryPolicy::Wrap);
    g.place_mass(0, 3, 2);
    let mut d = Driver::new();
    for _ in 0..10 {
        let s = g.step().expect("step succeeds");
        assert!(d.record(&s));
    }
    assert_eq!(d.product_num(), 1);
    assert_eq!(d.product_den(), 1);
}
