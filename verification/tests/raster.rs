use footile::edge::Edge;
use footile::edge::FillRule;
use footile::edge::Point;
use footile::plotter::Plotter;
use footile::sweep::sort_by_low;

fn render(edges: &[Edge], rule: FillRule, width: u32, height: u32) -> Vec<u8> {
    let mut plotter = Plotter::new(width, height).unwrap();
    plotter.render(edges, rule).pixels().to_vec()
}

fn polygon(points: &[(i32, i32)]) -> Vec<Edge> {
    let n = points.len();
    (0..n)
        .map(|i| Edge {
            from: Point { x: points[i].0, y: points[i].1 },
            to: Point { x: points[(i + 1) % n].0, y: points[(i + 1) % n].1 },
        })
        .collect()
}

fn winding_at(edges: &[Edge], px: i64, py: i64) -> i64 {
    let mut w = 0;
    for e in edges {
        let (lo, hi, dir) = if e.from.y < e.to.y {
            (e.from, e.to, 1)
        } else if e.from.y > e.to.y {
            (e.to, e.from, -1)
        } else {
            continue;
        };
        if (lo.y as i64) <= py && py < hi.y as i64 {
            let lhs = (py - lo.y as i64) as i128 * (hi.x as i64 - lo.x as i64) as i128;
            let rhs = (px - lo.x as i64) as i128 * (hi.y as i64 - lo.y as i64) as i128;
            if lhs <= rhs {
                w += dir;
            }
        }
    }
    w
}

fn expected(edges: &[Edge], rule: FillRule, width: u32, height: u32) -> Vec<u8> {
    let mut out = Vec::new();
    for y in 0..height as i64 {
        for x in 0..width as i64 {
            let mut inside = 0u32;
            for j in 0..4 {
                for i in 0..4 {
                    let w = winding_at(edges, 256 * x + 32 + 64 * i, 256 * y + 32 + 64 * j);
                    let hit = match rule {
                        FillRule::NonZero => w != 0,
                        FillRule::EvenOdd => w % 2 != 0,
                    };
                    if hit {
                        inside += 1;
                    }
                }
            }
            out.push((16 * inside).min(255) as u8);
        }
    }
    out
}

struct Lcg(u64);

impl Lcg {
    fn next(&mut self) -> u64 {
        self.0 = self.0.wrapping_mul(6364136223846793005).wrapping_add(1442695040888963407);
        self.0 >> 33
    }

    fn coordinate(&mut self, span: i32) -> i32 {
        (self.next() % (span as u64 + 1024)) as i32 - 512
    }
}

#[test]
fn render_fills_a_square() {
    let edges = polygon(&[(0, 0), (2560, 0), (2560, 2560), (0, 2560)]);
    let mask = render(&edges, FillRule::NonZero, 10, 10);
    assert_eq!(mask, vec![255u8; 100]);
}

#[test]
fn render_matches_point_sampling() {
    let mut rng = Lcg(7);
    for round in 0..200 {
        let width = 1 + (rng.next() % 9) as u32;
        let height = 1 + (rng.next() % 9) as u32;
        let corners = 3 + (rng.next() % 6) as usize;
        let points: Vec<(i32, i32)> = (0..corners)
            .map(|_| (rng.coordinate(256 * width as i32), rng.coordinate(256 * height as i32)))
            .collect();
        let edges = polygon(&points);
        let rule = if round % 2 == 0 { FillRule::NonZero } else { FillRule::EvenOdd };
        let mask = render(&edges, rule, width, height);
        assert_eq!(mask, expected(&edges, rule, width, height));
    }
}

#[test]
fn render_matches_point_sampling_far_outside() {
    let mut rng = Lcg(99);
    for round in 0..60 {
        let points: Vec<(i32, i32)> = (0..5)
            .map(|_| {
                let x = (rng.next() % 8192) as i32 - 4096;
                let y = (rng.next() % 8192) as i32 - 4096;
                (x, y)
            })
            .collect();
        let mut edges = polygon(&points);
        edges.push(Edge {
            from: Point { x: i32::MIN, y: i32::MIN },
            to: Point { x: i32::MAX, y: i32::MAX },
        });
        edges.push(Edge {
            from: Point { x: i32::MAX, y: -700 },
            to: Point { x: i32::MIN, y: 1900 },
        });
        let rule = if round % 2 == 0 { FillRule::NonZero } else { FillRule::EvenOdd };
        assert_eq!(render(&edges, rule, 6, 5), expected(&edges, rule, 6, 5));
    }
}

#[test]
fn render_weighs_each_sample_sixteen() {
    let cases: [((i32, i32), u8); 7] = [
        ((64, 64), 16),
        ((128, 64), 32),
        ((128, 128), 64),
        ((128, 256), 128),
        ((256, 192), 192),
        ((256, 256), 255),
        ((32, 32), 0),
    ];
    for ((w, h), expected) in cases {
        let edges = polygon(&[(0, 0), (w, 0), (w, h), (0, h)]);
        assert_eq!(render(&edges, FillRule::NonZero, 1, 1), [expected]);
        assert_eq!(render(&edges, FillRule::EvenOdd, 1, 1), [expected]);
    }
}

#[test]
fn render_takes_spans_half_open() {
    let left = polygon(&[(0, 0), (288, 0), (288, 256), (0, 256)]);
    let right = polygon(&[(288, 0), (512, 0), (512, 256), (288, 256)]);
    assert_eq!(render(&left, FillRule::NonZero, 2, 1), [255, 0]);
    assert_eq!(render(&right, FillRule::NonZero, 2, 1), [0, 255]);
    let mut both = left.clone();
    both.extend_from_slice(&right);
    assert_eq!(render(&both, FillRule::NonZero, 2, 1), [255, 255]);
    assert_eq!(render(&both, FillRule::EvenOdd, 2, 1), [255, 255]);
}

#[test]
fn render_skips_level_edges() {
    let level = [
        Edge { from: Point { x: 0, y: 32 }, to: Point { x: 256, y: 32 } },
        Edge { from: Point { x: 256, y: 96 }, to: Point { x: 0, y: 96 } },
    ];
    assert_eq!(render(&level, FillRule::NonZero, 1, 1), [0]);
    assert_eq!(render(&[], FillRule::NonZero, 3, 2), [0u8; 6]);
}

#[test]
fn rules_differ_where_a_shape_overlaps_itself() {
    let mut edges = polygon(&[(0, 0), (768, 0), (768, 768), (0, 768)]);
    edges.extend(polygon(&[(256, 256), (512, 256), (512, 512), (256, 512)]));
    let nonzero = render(&edges, FillRule::NonZero, 3, 3);
    let evenodd = render(&edges, FillRule::EvenOdd, 3, 3);
    assert_eq!(nonzero, [255u8; 9]);
    assert_eq!(evenodd, [255, 255, 255, 255, 0, 255, 255, 255, 255]);
}

#[test]
fn sort_by_low_orders_edges_by_where_they_begin() {
    let mut rng = Lcg(5);
    for round in 0..50 {
        let count = if round == 0 { 0 } else { (rng.next() % 40) as usize };
        let mut edges: Vec<Edge> = (0..count)
            .map(|_| Edge {
                from: Point { x: rng.coordinate(100), y: rng.coordinate(100) },
                to: Point { x: rng.coordinate(100), y: rng.coordinate(100) },
            })
            .collect();
        let key = |e: &Edge| (e.from.y.min(e.to.y), e.from.x, e.from.y, e.to.x, e.to.y);
        let mut expected = edges.clone();
        expected.sort_by_key(key);
        sort_by_low(&mut edges);
        assert!(edges.windows(2).all(|w| w[0].from.y.min(w[0].to.y) <= w[1].from.y.min(w[1].to.y)));
        let mut again = edges.clone();
        again.sort_by_key(key);
        assert_eq!(again, expected);
    }
    let mut few = vec![
        Edge { from: Point { x: 0, y: 9 }, to: Point { x: 1, y: 7 } },
        Edge { from: Point { x: 2, y: -3 }, to: Point { x: 3, y: 8 } },
        Edge { from: Point { x: 4, y: 5 }, to: Point { x: 5, y: 5 } },
    ];
    sort_by_low(&mut few);
    assert_eq!(
        few,
        [
            Edge { from: Point { x: 2, y: -3 }, to: Point { x: 3, y: 8 } },
            Edge { from: Point { x: 4, y: 5 }, to: Point { x: 5, y: 5 } },
            Edge { from: Point { x: 0, y: 9 }, to: Point { x: 1, y: 7 } },
        ]
    );
    let mut none: Vec<Edge> = Vec::new();
    sort_by_low(&mut none);
    assert!(none.is_empty());
}

#[test]
fn render_takes_up_and_drops_edges_on_its_way_down() {
    let mut edges = Vec::new();
    for band in 0..6 {
        let top = 512 * band + 64;
        edges.extend(polygon(&[(64, top), (1984, top), (1984, top + 320), (64, top + 320)]));
    }
    edges.reverse();
    for rule in [FillRule::NonZero, FillRule::EvenOdd] {
        let mask = render(&edges, rule, 8, 12);
        assert_eq!(mask, expected(&edges, rule, 8, 12));
        assert_eq!(mask[3], 192);
        assert_eq!(mask[8 + 3], 128);
        assert_eq!(mask[10 * 8 + 3], 192);
        assert_eq!(mask[11 * 8 + 3], 128);
        assert_eq!(mask[11 * 8], 96);
    }
}

#[test]
fn render_copes_with_many_edges() {
    let mut rng = Lcg(31);
    let points: Vec<(i32, i32)> =
        (0..3000).map(|_| (rng.coordinate(64 * 256), rng.coordinate(64 * 256))).collect();
    let edges = polygon(&points);
    let mask = render(&edges, FillRule::EvenOdd, 64, 64);
    let reference = expected(&edges, FillRule::EvenOdd, 64, 64);
    assert_eq!(mask, reference);
}
