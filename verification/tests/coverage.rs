use pixels_reference::coverage::{
    color_error_bound, half_plane_area, half_plane_byte, inside, quadratic_graph_area,
    quadratic_monotone_split, quadratic_strip_area, BoundaryOwner, HalfPlane, QuadraticGraph,
};
use pixels_reference::iv32::{FixedDomain, Iv32, NumericError};

fn coverage() -> FixedDomain {
    FixedDomain::full(-8)
}

#[test]
fn axis_diagonal_and_corner_coverage_are_exact() {
    assert_eq!(
        half_plane_area(HalfPlane { a: 1, b: 0, c: 0 }, coverage(), BoundaryOwner::LowerOrLeft),
        Ok(Iv32::point(256))
    );
    assert_eq!(
        half_plane_area(HalfPlane { a: 1, b: 1, c: -1 }, coverage(), BoundaryOwner::LowerOrLeft),
        Ok(Iv32::point(128))
    );
    assert_eq!(
        half_plane_area(HalfPlane { a: 1, b: 1, c: -2 }, coverage(), BoundaryOwner::LowerOrLeft),
        Ok(Iv32::point(0))
    );
}

#[test]
fn diagonal_byte_rounding_keeps_the_exact_rational_until_the_end() {
    assert_eq!(
        half_plane_byte(
            HalfPlane {
                a: -32,
                b: 32,
                c: 11,
            },
            BoundaryOwner::UpperOrRight,
        ),
        Ok(200),
    );
    assert_eq!(
        half_plane_byte(
            HalfPlane {
                a: 32,
                b: -32,
                c: 21,
            },
            BoundaryOwner::LowerOrLeft,
        ),
        Ok(240),
    );
}

#[test]
fn quadratic_strip_contains_chord_area() {
    let line = HalfPlane { a: 1, b: 1, c: -1 };
    assert_eq!(
        quadratic_strip_area(line, 3, coverage(), BoundaryOwner::LowerOrLeft),
        Ok(Iv32 { lo: 125, hi: 131 })
    );
}

#[test]
fn high_curvature_quadratic_uses_monotone_split_and_exact_integral() {
    let graph = QuadraticGraph {
        c: 192,
        b: -256,
        a: 256,
    };
    assert_eq!(
        quadratic_monotone_split(graph, coverage()),
        Ok(Some(Iv32::point(128)))
    );
    // Integral is 192 - 128 + 256/3 = 149 1/3 raw units.
    assert_eq!(
        quadratic_graph_area(graph, 2, coverage(), true, BoundaryOwner::LowerOrLeft),
        Ok(Iv32::new(147, 152).unwrap())
    );
}

#[test]
fn half_open_boundary_ownership_does_not_change_area() {
    let edge = HalfPlane { a: 1, b: 0, c: 0 };
    let left = half_plane_area(edge, coverage(), BoundaryOwner::LowerOrLeft).unwrap();
    let right = half_plane_area(edge, coverage(), BoundaryOwner::UpperOrRight).unwrap();
    assert_eq!(left, right);
}

#[test]
fn line_intervals_contain_dense_deterministic_oracle() {
    for edge in [
        HalfPlane { a: -3, b: 5, c: -1 },
        HalfPlane { a: 7, b: -2, c: -3 },
        HalfPlane { a: 1, b: 0, c: -1 },
        HalfPlane { a: 9, b: 11, c: -7 },
    ] {
        let interval = half_plane_area(edge, coverage(), BoundaryOwner::LowerOrLeft).unwrap();
        let mut breaks = vec![0.0_f64, 1.0];
        if edge.a != 0 {
            for numerator in [-edge.c, -edge.b - edge.c] {
                let x = numerator as f64 / edge.a as f64;
                if 0.0 < x && x < 1.0 {
                    breaks.push(x);
                }
            }
        }
        breaks.sort_by(f64::total_cmp);
        breaks.dedup();
        let vertical = |x: f64| {
            let at_zero = edge.a as f64 * x + edge.c as f64;
            if edge.b > 0 {
                (1.0 + at_zero / edge.b as f64).clamp(0.0, 1.0)
            } else if edge.b < 0 {
                (-at_zero / edge.b as f64).clamp(0.0, 1.0)
            } else if at_zero >= 0.0 {
                1.0
            } else {
                0.0
            }
        };
        let mut area = 0.0;
        for pair in breaks.windows(2) {
            let left = pair[0];
            let right = pair[1];
            if edge.b == 0 {
                area += (right - left) * vertical((left + right) * 0.5);
            } else {
                area += (right - left) * (vertical(left) + vertical(right)) * 0.5;
            }
        }
        let oracle = area * 256.0;
        assert!(
            f64::from(interval.lo) <= oracle + 1.0e-9
                && oracle - 1.0e-9 <= f64::from(interval.hi),
            "{edge:?}: {interval:?} does not contain {oracle}"
        );
    }
}

#[test]
fn quadratic_interval_contains_independent_dense_integration() {
    for (graph, strip) in [
        (QuadraticGraph { c: 32, b: 96, a: 64 }, 1),
        (QuadraticGraph { c: 192, b: -256, a: 256 }, 2),
        (QuadraticGraph { c: 220, b: -160, a: 80 }, 1),
        (QuadraticGraph { c: -64, b: 512, a: -256 }, 1),
    ] {
        let interval =
            quadratic_graph_area(graph, strip, coverage(), true, BoundaryOwner::LowerOrLeft)
                .unwrap();
        let samples = 65_536_i64;
        let mut sum = 0_f64;
        for index in 0..samples {
            let x = (index as f64 + 0.5) / samples as f64;
            sum += (f64::from(graph.c) + f64::from(graph.b) * x + f64::from(graph.a) * x * x)
                .clamp(0.0, 256.0);
        }
        let oracle = sum / samples as f64;
        assert!(
            f64::from(interval.lo) <= oracle && oracle <= f64::from(interval.hi),
            "{graph:?}: {interval:?} does not contain {oracle}"
        );
        if graph.c < 0 {
            assert!(
                interval.width_raw().unwrap() < 32,
                "clipped thin curve must not collapse to full coverage: {interval:?}"
            );
        }
    }
}

#[test]
fn clipped_quadratic_carries_half_open_piece_ownership() {
    let graph = QuadraticGraph {
        c: -64,
        b: 512,
        a: -256,
    };
    let lower =
        quadratic_graph_area(graph, 0, coverage(), true, BoundaryOwner::LowerOrLeft).unwrap();
    let upper =
        quadratic_graph_area(graph, 0, coverage(), true, BoundaryOwner::UpperOrRight).unwrap();
    assert_eq!(lower, upper);
    assert_ne!(lower, Iv32::new(0, 256).unwrap());
}

#[test]
fn half_open_boundary_has_exactly_one_discrete_owner() {
    for signed_value in [-1_i128, 0, 1] {
        let lower_or_left = inside(signed_value, BoundaryOwner::LowerOrLeft);
        let upper_or_right_complement = inside(-signed_value, BoundaryOwner::UpperOrRight);
        assert_ne!(
            lower_or_left, upper_or_right_complement,
            "the exact boundary must be assigned once, not dropped or doubled"
        );
    }
    assert!(inside(0, BoundaryOwner::LowerOrLeft));
    assert!(!inside(0, BoundaryOwner::UpperOrRight));
}

#[test]
fn complementary_shared_boundary_has_full_total_area() {
    let edge = HalfPlane { a: 3, b: -2, c: -1 };
    let complement = HalfPlane {
        a: -edge.a,
        b: -edge.b,
        c: -edge.c,
    };
    let a = half_plane_area(edge, coverage(), BoundaryOwner::LowerOrLeft).unwrap();
    let b = half_plane_area(complement, coverage(), BoundaryOwner::UpperOrRight).unwrap();
    assert!(a.lo + b.lo <= 256);
    assert!(a.hi + b.hi >= 256);
}

#[test]
fn coverage_errors_and_color_bounds() {
    assert_eq!(
        half_plane_area(HalfPlane { a: 2_000_000, b: 0, c: 0 }, coverage(), BoundaryOwner::LowerOrLeft),
        Err(NumericError::Overflow)
    );
    assert_eq!(
        half_plane_area(HalfPlane { a: 1, b: 0, c: 0 }, FixedDomain::full(3), BoundaryOwner::LowerOrLeft),
        Err(NumericError::InvalidDomain)
    );
    assert_eq!(
        half_plane_byte(HalfPlane { a: 1, b: 0, c: 0 }, BoundaryOwner::LowerOrLeft),
        Ok(255)
    );
    assert_eq!(
        quadratic_monotone_split(QuadraticGraph { c: 0, b: 5, a: 0 }, coverage()),
        Ok(None)
    );
    assert_eq!(
        color_error_bound(Iv32::new(10, 14).unwrap(), Iv32::new(-3, 2).unwrap(), FixedDomain::full(0)),
        Ok(Iv32 { lo: 0, hi: 12 })
    );
    let wide = quadratic_graph_area(
        QuadraticGraph { c: -2_000_000, b: 0, a: 4_000_000 },
        0,
        coverage(),
        true,
        BoundaryOwner::LowerOrLeft,
    );
    assert_eq!(wide, Ok(Iv32::new(0, 256).unwrap()));
}
