use footile::edge::Edge;
use footile::edge::FillRule;
use footile::edge::Point;
use footile::path::flatten_cubic_into;
use footile::path::flatten_quad_into;
use footile::path::Path;
use footile::path::PathOp;
use footile::plotter::Plotter;
use footile::arith::isqrt;
use footile::stroke::stroke_into;
use footile::MaskError;

fn px(x: i32, y: i32) -> Point {
    Point { x: x * 256, y: y * 256 }
}

fn at(x: i32, y: i32) -> Point {
    Point { x, y }
}

fn is_chain(edges: &[Edge], from: Point, to: Point) -> bool {
    !edges.is_empty()
        && edges[0].from == from
        && edges[edges.len() - 1].to == to
        && edges.windows(2).all(|pair| pair[0].to == pair[1].from)
}

#[test]
fn fill_covers_a_square_path() {
    let path = Path::new(
        vec![
            PathOp::MoveTo(px(0, 0)),
            PathOp::LineTo(px(10, 0)),
            PathOp::LineTo(px(10, 10)),
            PathOp::LineTo(px(0, 10)),
            PathOp::Close,
        ],
        256,
        false,
    );
    let mut plotter = Plotter::new(10, 10).unwrap();
    let mask = plotter.fill(&path, FillRule::NonZero);
    assert_eq!((mask.width(), mask.height()), (10, 10));
    assert_eq!(mask.pixels(), &[255u8; 100][..]);
    assert_eq!(plotter.fill(&path, FillRule::EvenOdd).pixels(), &[255u8; 100][..]);
}

#[test]
fn fill_closes_open_sub_paths() {
    let open = Path::new(
        vec![
            PathOp::MoveTo(px(1, 1)),
            PathOp::LineTo(px(3, 1)),
            PathOp::LineTo(px(3, 3)),
            PathOp::LineTo(px(1, 3)),
            PathOp::MoveTo(px(4, 0)),
            PathOp::LineTo(px(5, 0)),
            PathOp::LineTo(px(5, 1)),
            PathOp::LineTo(px(4, 1)),
        ],
        0,
        false,
    );
    let mut plotter = Plotter::new(5, 4).unwrap();
    let expected = [
        0, 0, 0, 0, 255, //
        0, 255, 255, 0, 0, //
        0, 255, 255, 0, 0, //
        0, 0, 0, 0, 0,
    ];
    assert_eq!(plotter.fill(&open, FillRule::NonZero).pixels(), &expected[..]);
}

#[test]
fn fill_of_a_malformed_path_is_clear() {
    let mut plotter = Plotter::new(4, 4).unwrap();
    let square = [px(0, 0), px(4, 0), px(4, 4), px(0, 4)];
    assert_eq!(plotter.fill_polygon(&square, FillRule::NonZero).pixels(), &[255u8; 16][..]);
    let empty = Path::new(Vec::new(), 256, false);
    assert_eq!(plotter.fill(&empty, FillRule::NonZero).pixels(), &[0u8; 16][..]);
    plotter.fill_polygon(&square, FillRule::NonZero);
    let headless = Path::new(
        vec![PathOp::LineTo(px(4, 0)), PathOp::LineTo(px(4, 4)), PathOp::LineTo(px(0, 4)), PathOp::Close],
        256,
        false,
    );
    assert_eq!(plotter.fill(&headless, FillRule::NonZero).pixels(), &[0u8; 16][..]);
    assert_eq!(plotter.stroke(&headless).pixels(), &[0u8; 16][..]);
}

#[test]
fn stroke_of_a_path_without_length_is_clear() {
    let mut plotter = Plotter::new(8, 8).unwrap();
    let square = [px(0, 0), px(8, 0), px(8, 8), px(0, 8)];
    plotter.fill_polygon(&square, FillRule::NonZero);
    let lone = Path::new(vec![PathOp::MoveTo(px(4, 4))], 3 * 256, false);
    assert_eq!(plotter.stroke(&lone).pixels(), &[0u8; 64][..]);
    plotter.fill_polygon(&square, FillRule::NonZero);
    let still = Path::new(
        vec![PathOp::MoveTo(px(4, 4)), PathOp::LineTo(px(4, 4)), PathOp::Close],
        3 * 256,
        false,
    );
    assert_eq!(plotter.stroke(&still).pixels(), &[0u8; 64][..]);
    plotter.fill_polygon(&square, FillRule::NonZero);
    let thin = Path::new(vec![PathOp::MoveTo(px(1, 1)), PathOp::LineTo(px(7, 7))], 0, false);
    assert_eq!(plotter.stroke(&thin).pixels(), &[0u8; 64][..]);
}

#[test]
fn stroke_covers_the_width_of_the_pen() {
    let line = Path::new(vec![PathOp::MoveTo(px(3, 4)), PathOp::LineTo(px(9, 4))], 2 * 256, false);
    let mut plotter = Plotter::new(12, 8).unwrap();
    let mask = plotter.stroke(&line);
    let row = |y: usize| &mask.pixels()[12 * y..12 * y + 12];
    assert_eq!(&row(3)[3..9], &[255u8; 6][..]);
    assert_eq!(&row(4)[3..9], &[255u8; 6][..]);
    assert_eq!(row(1), &[0u8; 12][..]);
    assert_eq!(row(6), &[0u8; 12][..]);
    assert!(row(2).iter().all(|&b| b == 0));
    assert!(row(5).iter().all(|&b| b == 0));
    assert_eq!(row(3)[1], 0);
    assert!(row(3)[2] > 0 && row(3)[2] < 255);
    assert!(row(3)[9] > 0 && row(3)[9] < 255);
    assert_eq!(row(3)[10], 0);
    assert_eq!(row(3), row(4));
}

#[test]
fn stroke_is_the_rendering_of_the_pen_outline() {
    let path = Path::new(
        vec![
            PathOp::MoveTo(px(2, 2)),
            PathOp::LineTo(px(12, 3)),
            PathOp::QuadTo(px(16, 10), px(6, 13)),
            PathOp::CubicTo(px(0, 14), px(1, 6), px(8, 8)),
            PathOp::Close,
        ],
        700,
        false,
    );
    let mut plotter = Plotter::new(18, 16).unwrap();
    let stroked = plotter.stroke(&path).pixels().to_vec();
    let mut segments = Vec::new();
    path.segments(&mut segments, plotter.tolerance());
    let mut outline = Vec::new();
    stroke_into(&mut outline, &segments, path.pen_width());
    assert_eq!(outline.len(), segments.len() * 36);
    assert_eq!(plotter.render(&outline, FillRule::NonZero).pixels(), &stroked[..]);
    assert!(stroked.iter().any(|&b| b == 255));
    assert!(stroked.iter().any(|&b| b == 0));
}

#[test]
fn stroke_rounds_joins_without_holes() {
    let bend = Path::new(
        vec![PathOp::MoveTo(px(3, 3)), PathOp::LineTo(px(12, 3)), PathOp::LineTo(px(12, 12))],
        4 * 256,
        false,
    );
    let mut plotter = Plotter::new(16, 16).unwrap();
    let mask = plotter.stroke(&bend);
    let pixel = |x: usize, y: usize| mask.pixels()[16 * y + x];
    for x in 3..13 {
        assert_eq!(pixel(x, 2), 255);
        assert_eq!(pixel(x, 3), 255);
    }
    for y in 3..12 {
        assert_eq!(pixel(11, y), 255);
        assert_eq!(pixel(12, y), 255);
    }
    assert_eq!(pixel(8, 8), 0);
    assert_eq!(pixel(15, 0), 0);
    assert_eq!(pixel(0, 3), 0);
    assert!(pixel(14, 1) < 255);
}

#[test]
fn fill_does_not_depend_on_the_sense_of_the_polygon() {
    let mut seed: u64 = 2024;
    let mut next = move || {
        seed = seed.wrapping_mul(6364136223846793005).wrapping_add(1442695040888963407);
        (seed >> 33) as i32
    };
    let mut plotter = Plotter::new(9, 7).unwrap();
    for _ in 0..100 {
        let corners = 3 + (next() % 5) as usize;
        let forth: Vec<Point> =
            (0..corners).map(|_| at(next() % 2600 - 150, next() % 2100 - 150)).collect();
        let back: Vec<Point> = forth.iter().rev().copied().collect();
        for rule in [FillRule::NonZero, FillRule::EvenOdd] {
            let one = plotter.fill_polygon(&forth, rule).pixels().to_vec();
            let other = plotter.fill_polygon(&back, rule).pixels().to_vec();
            assert_eq!(one, other);
        }
    }
}

#[test]
fn fill_of_a_convex_polygon_is_full_inside_and_clear_outside() {
    let corners = [at(1500, 300), at(2700, 1400), at(2000, 2900), at(700, 2500), at(300, 1200)];
    let side = |i: usize, x: i64, y: i64| {
        let (a, b) = (corners[i], corners[(i + 1) % 5]);
        (b.x as i64 - a.x as i64) * (y - a.y as i64) - (b.y as i64 - a.y as i64) * (x - a.x as i64)
    };
    let square = |x: i64, y: i64| {
        [(256 * x, 256 * y), (256 * x + 256, 256 * y), (256 * x, 256 * y + 256), (256 * x + 256, 256 * y + 256)]
    };
    let mut plotter = Plotter::new(14, 14).unwrap();
    let back: Vec<Point> = corners.iter().rev().copied().collect();
    for rule in [FillRule::NonZero, FillRule::EvenOdd] {
        let mask = plotter.fill_polygon(&corners, rule).pixels().to_vec();
        assert_eq!(plotter.fill_polygon(&back, rule).pixels(), &mask[..]);
        let (mut full, mut clear, mut partial) = (0, 0, 0);
        for y in 0..14i64 {
            for x in 0..14i64 {
                let value = mask[(14 * y + x) as usize];
                let enclosed = (0..5).all(|i| square(x, y).iter().all(|&(px, py)| side(i, px, py) > 0));
                let beyond = (0..5).any(|i| square(x, y).iter().all(|&(px, py)| side(i, px, py) < 0));
                let outside =
                    256 * (x + 1) <= 300 || 256 * x >= 2700 || 256 * (y + 1) <= 300 || 256 * y >= 2900;
                if enclosed {
                    assert_eq!(value, 255);
                    full += 1;
                }
                if beyond || outside {
                    assert_eq!(value, 0);
                    clear += 1;
                }
                if value != 0 && value != 255 {
                    assert!(!enclosed && !beyond && !outside);
                    partial += 1;
                }
            }
        }
        assert!(full > 20 && clear > 60 && partial > 10);
    }
}

#[test]
fn fill_flattens_curves() {
    let lens = Path::new(
        vec![
            PathOp::MoveTo(px(2, 8)),
            PathOp::QuadTo(px(8, -4), px(14, 8)),
            PathOp::CubicTo(px(12, 16), px(4, 16), px(2, 8)),
        ],
        0,
        false,
    );
    let mut plotter = Plotter::new(16, 16).unwrap();
    let mask = plotter.fill(&lens, FillRule::NonZero);
    let pixel = |x: usize, y: usize| mask.pixels()[16 * y + x];
    assert_eq!(pixel(8, 8), 255);
    assert_eq!(pixel(8, 4), 255);
    assert_eq!(pixel(8, 12), 255);
    assert_eq!(pixel(8, 1), 0);
    assert_eq!(pixel(8, 15), 0);
    assert_eq!(pixel(2, 3), 0);
    assert_eq!(pixel(13, 3), 0);
    assert_eq!(pixel(0, 8), 0);
    assert_eq!(pixel(15, 8), 0);
}

#[test]
fn relative_steps_draw_what_absolute_places_draw() {
    let places = Path::new(
        vec![
            PathOp::MoveTo(px(14, 3)),
            PathOp::LineTo(px(10, 6)),
            PathOp::CubicTo(px(-2, 0), px(-2, 16), px(10, 10)),
            PathOp::LineTo(px(14, 13)),
            PathOp::QuadTo(px(11, 8), px(12, 8)),
            PathOp::Close,
            PathOp::LineTo(px(15, 15)),
        ],
        300,
        false,
    );
    let steps = Path::new(
        vec![
            PathOp::MoveTo(px(14, 3)),
            PathOp::LineTo(px(-4, 3)),
            PathOp::CubicTo(px(-12, -6), px(-12, 10), px(0, 4)),
            PathOp::LineTo(px(4, 3)),
            PathOp::QuadTo(px(-3, -5), px(-2, -5)),
            PathOp::Close,
            PathOp::LineTo(px(1, 12)),
        ],
        300,
        true,
    );
    assert!(steps.is_relative() && !places.is_relative());
    let (mut a, mut b) = (Vec::new(), Vec::new());
    places.outline(&mut a, 16);
    steps.outline(&mut b, 16);
    assert_eq!(a, b);
    assert_eq!(a[a.len() - 1], Edge { from: px(15, 15), to: px(14, 3) });
    let (mut c, mut d) = (Vec::new(), Vec::new());
    places.segments(&mut c, 16);
    steps.segments(&mut d, 16);
    assert_eq!(c, d);
    assert_eq!(a.len(), c.len() + 1);
    let mut plotter = Plotter::new(16, 16).unwrap();
    let one = plotter.fill(&places, FillRule::EvenOdd).pixels().to_vec();
    let other = plotter.fill(&steps, FillRule::EvenOdd).pixels().to_vec();
    assert_eq!(one, other);
}

#[test]
fn relative_steps_stay_within_the_coordinates() {
    let far = Path::new(
        vec![
            PathOp::MoveTo(at(i32::MAX - 5, i32::MIN + 5)),
            PathOp::LineTo(at(100, -100)),
            PathOp::LineTo(at(-7, 7)),
        ],
        0,
        true,
    );
    let mut segments = Vec::new();
    far.segments(&mut segments, 16);
    assert_eq!(
        segments,
        [
            Edge { from: at(i32::MAX - 5, i32::MIN + 5), to: at(i32::MAX, i32::MIN) },
            Edge { from: at(i32::MAX, i32::MIN), to: at(i32::MAX - 7, i32::MIN + 7) },
        ]
    );
}

#[test]
fn flatten_quad_into_follows_the_curve() {
    let (p0, c, p1) = (px(0, 0), px(50, 0), px(50, 50));
    let mut edges = Vec::new();
    flatten_quad_into(&mut edges, p0, c, p1, 16, 16);
    assert!(is_chain(&edges, p0, p1));
    assert!(edges.len() > 8 && edges.len() <= 1 << 16);
    for e in &edges {
        for p in [e.from, e.to] {
            let (x, y) = (p.x as f64 / 256.0, p.y as f64 / 256.0);
            let t = (y / 50.0).sqrt();
            assert!((x - 100.0 * t * (1.0 - t) - 50.0 * t * t).abs() < 0.1);
        }
    }
    let mut coarse = Vec::new();
    flatten_quad_into(&mut coarse, p0, c, p1, 512, 16);
    assert!(is_chain(&coarse, p0, p1));
    assert!(coarse.len() < edges.len());
    let mut capped = Vec::new();
    flatten_quad_into(&mut capped, p0, c, p1, 0, 3);
    assert!(is_chain(&capped, p0, p1));
    assert_eq!(capped.len(), 8);
}

#[test]
fn flatten_quad_into_takes_a_flat_curve_for_its_chord() {
    let mut edges = vec![Edge { from: px(9, 9), to: px(8, 8) }];
    flatten_quad_into(&mut edges, px(0, 0), px(5, 5), px(10, 10), 16, 16);
    flatten_quad_into(&mut edges, px(3, 3), px(3, 3), px(3, 3), 0, 16);
    flatten_quad_into(&mut edges, px(0, 0), px(7, 1), px(10, 10), 16, 0);
    flatten_quad_into(&mut edges, at(0, 0), at(32, 32), at(0, 0), 16, 16);
    assert_eq!(
        edges,
        [
            Edge { from: px(9, 9), to: px(8, 8) },
            Edge { from: px(0, 0), to: px(10, 10) },
            Edge { from: px(3, 3), to: px(3, 3) },
            Edge { from: px(0, 0), to: px(10, 10) },
            Edge { from: at(0, 0), to: at(0, 0) },
        ]
    );
}

#[test]
fn flatten_quad_into_halves_at_the_middle() {
    let mut edges = Vec::new();
    flatten_quad_into(&mut edges, at(0, 0), at(100, 0), at(100, 100), 0, 1);
    assert_eq!(
        edges,
        [
            Edge { from: at(0, 0), to: at(75, 25) },
            Edge { from: at(75, 25), to: at(100, 100) },
        ]
    );
    edges.clear();
    flatten_quad_into(&mut edges, at(-1, -3), at(0, 0), at(2, 2), 0, 1);
    assert_eq!(
        edges,
        [Edge { from: at(-1, -3), to: at(0, -1) }, Edge { from: at(0, -1), to: at(2, 2) }]
    );
}

#[test]
fn flatten_cubic_into_follows_the_curve() {
    let (p0, c1, c2, p1) = (px(0, 0), px(0, 40), px(60, 40), px(60, 0));
    let mut edges = Vec::new();
    flatten_cubic_into(&mut edges, p0, c1, c2, p1, 16, 16);
    assert!(is_chain(&edges, p0, p1));
    assert!(edges.len() > 8);
    let top = edges.iter().map(|e| e.to.y).max().unwrap();
    assert!((top - 30 * 256).abs() <= 16);
    let mut halves = Vec::new();
    flatten_cubic_into(&mut halves, at(0, 0), at(0, 40), at(60, 40), at(60, 0), 0, 1);
    assert_eq!(
        halves,
        [Edge { from: at(0, 0), to: at(30, 30) }, Edge { from: at(30, 30), to: at(60, 0) }]
    );
    let mut flat = Vec::new();
    flatten_cubic_into(&mut flat, px(0, 0), px(1, 1), px(2, 2), px(3, 3), 16, 16);
    flatten_cubic_into(&mut flat, px(5, 5), px(5, 5), px(5, 5), px(5, 5), 0, 16);
    assert_eq!(
        flat,
        [Edge { from: px(0, 0), to: px(3, 3) }, Edge { from: px(5, 5), to: px(5, 5) }]
    );
    let mut limit = Vec::new();
    flatten_cubic_into(&mut limit, at(0, 0), at(0, 4), at(12, 4), at(12, 0), 9, 16);
    assert_eq!(limit, [Edge { from: at(0, 0), to: at(12, 0) }]);
    limit.clear();
    flatten_cubic_into(&mut limit, at(0, 0), at(0, 4), at(12, 4), at(12, 0), 8, 16);
    assert_eq!(
        limit,
        [Edge { from: at(0, 0), to: at(6, 3) }, Edge { from: at(6, 3), to: at(12, 0) }]
    );
}

#[test]
fn stroke_into_sweeps_a_rectangle_and_two_disks() {
    let mut outline = Vec::new();
    let segment = Edge { from: at(0, 0), to: at(1000, 0) };
    stroke_into(&mut outline, &[segment], 512);
    assert_eq!(outline.len(), 36);
    assert_eq!(
        &outline[..4],
        &[
            Edge { from: at(0, 256), to: at(1000, 256) },
            Edge { from: at(1000, 256), to: at(1000, -256) },
            Edge { from: at(1000, -256), to: at(0, -256) },
            Edge { from: at(0, -256), to: at(0, 256) },
        ]
    );
    assert_eq!(outline[4], Edge { from: at(256, 0), to: at(237, -98) });
    assert_eq!(outline[5], Edge { from: at(237, -98), to: at(181, -181) });
    assert_eq!(outline[19], Edge { from: at(237, 98), to: at(256, 0) });
    assert_eq!(outline[20], Edge { from: at(1256, 0), to: at(1237, -98) });
    assert!(is_chain(&outline[4..20], at(256, 0), at(256, 0)));
    let mut slanted = Vec::new();
    stroke_into(&mut slanted, &[Edge { from: at(0, 0), to: at(300, 400) }], 100);
    assert_eq!(slanted[0], Edge { from: at(-40, 30), to: at(260, 430) });
    assert_eq!(slanted[2], Edge { from: at(340, 370), to: at(40, -30) });
    let mut none = Vec::new();
    stroke_into(&mut none, &[segment], 0);
    stroke_into(&mut none, &[Edge { from: at(5, 5), to: at(5, 5) }], 512);
    stroke_into(&mut none, &[], 512);
    assert!(none.is_empty());
}

#[test]
fn isqrt_rounds_down() {
    assert_eq!(isqrt(0), 0);
    assert_eq!(isqrt(1), 1);
    assert_eq!(isqrt(3), 1);
    assert_eq!(isqrt(4), 2);
    assert_eq!(isqrt(99), 9);
    assert_eq!(isqrt(100), 10);
    assert_eq!(isqrt(1 << 64), 1 << 32);
    assert_eq!(isqrt((1 << 64) - 1), (1 << 32) - 1);
    assert_eq!(isqrt(u128::MAX), u64::MAX);
    assert_eq!(isqrt(u64::MAX as u128 * u64::MAX as u128), u64::MAX);
    assert_eq!(isqrt(u64::MAX as u128 * u64::MAX as u128 - 1), u64::MAX - 1);
}

#[test]
fn plotter_starts_clear_with_the_default_tolerance() {
    let mut plotter = Plotter::new(5, 3).unwrap();
    assert_eq!((plotter.width(), plotter.height()), (5, 3));
    assert_eq!(plotter.tolerance(), 16);
    assert_eq!(plotter.mask().pixels(), &[0u8; 15][..]);
    plotter.set_tolerance(2000);
    assert_eq!(plotter.tolerance(), 2000);
    assert_eq!((plotter.width(), plotter.height()), (5, 3));
}

#[test]
fn plotter_flattens_within_its_tolerance() {
    let arc = Path::new(vec![PathOp::MoveTo(px(0, 0)), PathOp::QuadTo(px(8, 0), px(8, 8))], 256, false);
    let mut plotter = Plotter::new(8, 8).unwrap();
    let fine = plotter.fill(&arc, FillRule::NonZero).pixels().to_vec();
    plotter.set_tolerance(100_000);
    let coarse = plotter.fill(&arc, FillRule::NonZero).pixels().to_vec();
    let mut chord = Vec::new();
    arc.outline(&mut chord, 100_000);
    assert_eq!(chord.len(), 2);
    assert_eq!(coarse, [0u8; 64]);
    assert_eq!(fine[3 * 8 + 5], 255);
    assert_eq!(fine[7], 0);
    assert_eq!(fine[7 * 8], 0);
}

#[test]
fn plotter_refuses_unaddressable_dimensions() {
    assert_eq!(Plotter::new(u32::MAX, u32::MAX).err(), Some(MaskError::InvalidDimensions));
    assert_eq!(Plotter::new(u32::MAX, (1 << 31) + 1).err(), Some(MaskError::InvalidDimensions));
    assert!(Plotter::new(0, 0).is_ok());
    assert!(Plotter::new(0, 9).is_ok());
}

#[test]
fn plotter_renders_into_empty_masks() {
    let square = [px(0, 0), px(4, 0), px(4, 4), px(0, 4)];
    let mut flat = Plotter::new(7, 0).unwrap();
    assert!(flat.fill_polygon(&square, FillRule::NonZero).pixels().is_empty());
    let mut narrow = Plotter::new(0, 7).unwrap();
    assert!(narrow.fill_polygon(&square, FillRule::NonZero).pixels().is_empty());
}

#[test]
fn path_keeps_what_it_was_made_of() {
    let ops = vec![PathOp::MoveTo(px(1, 2)), PathOp::LineTo(px(3, 4)), PathOp::Close];
    let path = Path::new(ops.clone(), 77, true);
    assert_eq!(path.ops(), &ops[..]);
    assert_eq!(path.pen_width(), 77);
    assert!(path.is_relative());
    assert!(path.is_well_formed());
    assert!(!Path::new(Vec::new(), 1, false).is_well_formed());
    assert!(!Path::new(vec![PathOp::Close, PathOp::MoveTo(px(0, 0))], 1, false).is_well_formed());
}

#[test]
fn fill_covers_nothing_outside_the_box_of_the_path() {
    let path = Path::new(
        vec![
            PathOp::MoveTo(at(700, 900)),
            PathOp::CubicTo(at(3300, 520), at(520, 3300), at(3000, 3000)),
            PathOp::QuadTo(at(3300, 600), at(1500, 1700)),
            PathOp::LineTo(at(600, 3200)),
            PathOp::MoveTo(at(2000, 2000)),
            PathOp::QuadTo(at(520, 520), at(3300, 2500)),
        ],
        0,
        false,
    );
    let (left, top, right, bottom) = (520, 520, 3300, 3300);
    let mut plotter = Plotter::new(16, 16).unwrap();
    for tolerance in [0, 16, 400] {
        plotter.set_tolerance(tolerance);
        for rule in [FillRule::NonZero, FillRule::EvenOdd] {
            let mask = plotter.fill(&path, rule).pixels().to_vec();
            let mut covered = 0;
            for y in 0..16i32 {
                for x in 0..16i32 {
                    let outside = 256 * (x + 1) <= left
                        || 256 * x >= right
                        || 256 * (y + 1) <= top
                        || 256 * y >= bottom;
                    if outside {
                        assert_eq!(mask[(16 * y + x) as usize], 0);
                    } else if mask[(16 * y + x) as usize] == 255 {
                        covered += 1;
                    }
                }
            }
            assert!(covered > 5);
        }
    }
}

#[test]
fn outline_closes_each_sub_path_once() {
    let path = Path::new(
        vec![
            PathOp::MoveTo(px(1, 1)),
            PathOp::LineTo(px(5, 1)),
            PathOp::LineTo(px(5, 5)),
            PathOp::Close,
            PathOp::MoveTo(px(7, 7)),
            PathOp::LineTo(px(9, 7)),
            PathOp::MoveTo(px(2, 8)),
            PathOp::MoveTo(px(3, 8)),
            PathOp::LineTo(px(3, 9)),
            PathOp::LineTo(px(3, 8)),
        ],
        0,
        false,
    );
    let mut outline = Vec::new();
    path.outline(&mut outline, 16);
    assert_eq!(
        outline,
        [
            Edge { from: px(1, 1), to: px(5, 1) },
            Edge { from: px(5, 1), to: px(5, 5) },
            Edge { from: px(5, 5), to: px(1, 1) },
            Edge { from: px(7, 7), to: px(9, 7) },
            Edge { from: px(9, 7), to: px(7, 7) },
            Edge { from: px(3, 8), to: px(3, 9) },
            Edge { from: px(3, 9), to: px(3, 8) },
        ]
    );
    let mut segments = Vec::new();
    path.segments(&mut segments, 16);
    assert_eq!(
        segments,
        [
            Edge { from: px(1, 1), to: px(5, 1) },
            Edge { from: px(5, 1), to: px(5, 5) },
            Edge { from: px(5, 5), to: px(1, 1) },
            Edge { from: px(7, 7), to: px(9, 7) },
            Edge { from: px(3, 8), to: px(3, 9) },
            Edge { from: px(3, 9), to: px(3, 8) },
        ]
    );
}

#[test]
fn flattened_curves_stay_in_the_box_of_their_points() {
    let mut seed: u64 = 77;
    let mut next = move || {
        seed = seed.wrapping_mul(6364136223846793005).wrapping_add(1442695040888963407);
        (seed >> 33) as i32 % 100_000 - 50_000
    };
    for _ in 0..40 {
        let points = [at(next(), next()), at(next(), next()), at(next(), next()), at(next(), next())];
        let mut quad = Vec::new();
        flatten_quad_into(&mut quad, points[0], points[1], points[2], 16, 16);
        let mut cubic = Vec::new();
        flatten_cubic_into(&mut cubic, points[0], points[1], points[2], points[3], 16, 16);
        assert!(is_chain(&quad, points[0], points[2]));
        assert!(is_chain(&cubic, points[0], points[3]));
        for (edges, used) in [(&quad, 3), (&cubic, 4)] {
            let xs = points[..used].iter().map(|p| p.x);
            let ys = points[..used].iter().map(|p| p.y);
            let (left, right) = (xs.clone().min().unwrap(), xs.max().unwrap());
            let (top, bottom) = (ys.clone().min().unwrap(), ys.max().unwrap());
            for e in edges.iter() {
                for p in [e.from, e.to] {
                    assert!(left <= p.x && p.x <= right && top <= p.y && p.y <= bottom);
                }
            }
        }
    }
}

#[test]
fn a_flat_curve_strays_from_its_chord_by_the_tolerance_at_most() {
    let mut seed: u64 = 4242;
    let mut next = move |span: i64| {
        seed = seed.wrapping_mul(6364136223846793005).wrapping_add(1442695040888963407);
        ((seed >> 33) as i64 % (2 * span + 1)) - span
    };
    let mut flat_quads = 0;
    let mut flat_cubics = 0;
    for _ in 0..400 {
        let tolerance = 40u32;
        let a = (next(5000), next(5000));
        let d = (next(5000), next(5000));
        let b = ((2 * a.0 + d.0) / 3 + next(25), (2 * a.1 + d.1) / 3 + next(25));
        let c = ((a.0 + 2 * d.0) / 3 + next(25), (a.1 + 2 * d.1) / 3 + next(25));
        let m = ((a.0 + d.0) / 2 + next(90), (a.1 + d.1) / 2 + next(90));
        let point = |p: (i64, i64)| at(p.0 as i32, p.1 as i32);
        let mut quad = Vec::new();
        flatten_quad_into(&mut quad, point(a), point(m), point(d), tolerance, 16);
        let mut cubic = Vec::new();
        flatten_cubic_into(&mut cubic, point(a), point(b), point(c), point(d), tolerance, 16);
        let n: i64 = 64;
        for k in 0..=n {
            let j = n - k;
            for axis in 0..2 {
                let pick = |p: (i64, i64)| if axis == 0 { p.0 } else { p.1 };
                let chord = j * pick(a) + k * pick(d);
                if quad.len() == 1 {
                    let curve = j * j * pick(a) + 2 * k * j * pick(m) + k * k * pick(d);
                    assert!((curve - n * chord).abs() <= n * n * tolerance as i64);
                }
                if cubic.len() == 1 {
                    let curve = j * j * j * pick(a)
                        + 3 * k * j * j * pick(b)
                        + 3 * k * k * j * pick(c)
                        + k * k * k * pick(d);
                    assert!((curve - n * n * chord).abs() <= n * n * n * tolerance as i64);
                }
            }
        }
        flat_quads += (quad.len() == 1) as u32;
        flat_cubics += (cubic.len() == 1) as u32;
    }
    assert!(flat_quads > 50 && flat_cubics > 50);
}
