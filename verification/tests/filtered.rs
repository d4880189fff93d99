use brindle::distance::Kernel;
use brindle::filter::{Atom, AttrValue, Predicate};
use brindle::hnsw::insert::xorshift64;
use brindle::hnsw::{Hnsw, HnswParams};

fn kernel(_: Kernel, a: &[u32], b: &[u32]) -> u32 {
    let r: f32 = a
        .iter()
        .zip(b)
        .map(|(x, y)| f32::from_bits(*x) - f32::from_bits(*y))
        .map(|d| d * d)
        .sum();
    r.to_bits()
}

fn level(draw: u64, m: usize) -> usize {
    let r = (draw as f64 / (1u64 << 53) as f64).max(f64::MIN_POSITIVE);
    (-r.ln() * (1.0 / (m as f64).ln())).floor() as usize
}

/// A node of a handmade graph on a line.
struct Point {
    at: f32,
    label: i64,
    links: Vec<Vec<u64>>,
}

fn point(at: f32, label: i64, links: &[&[u64]]) -> Point {
    Point {
        at,
        label,
        links: links.iter().map(|list| list.to_vec()).collect(),
    }
}

/// A graph with just these nodes and links, entered at node 0.
fn handmade(max_layer: u64, points: &[Point]) -> Hnsw {
    let mut b = Vec::new();
    b.extend(0x4248_4E57u32.to_le_bytes());
    b.extend(2u16.to_le_bytes());
    b.extend([0, 0]);
    b.extend(16u64.to_le_bytes());
    b.extend(1.0f32.to_bits().to_le_bytes());
    b.extend(64u64.to_le_bytes());
    b.extend(1u64.to_le_bytes());
    b.extend(max_layer.to_le_bytes());
    for word in [1u64, 1, 0, points.len() as u64] {
        b.extend(word.to_le_bytes());
    }
    for p in points {
        b.push(0);
        b.extend((p.links.len() as u64).to_le_bytes());
        b.extend(p.at.to_bits().to_le_bytes());
        for list in &p.links {
            b.extend((list.len() as u64).to_le_bytes());
            for id in list {
                b.extend(id.to_le_bytes());
            }
        }
        b.extend(1u64.to_le_bytes());
        b.push(1);
        b.extend(p.label.to_le_bytes());
    }
    Hnsw::from_bytes(&b).ok().unwrap()
}

fn labelled(label: i64) -> Predicate {
    Predicate::And(vec![Atom::Eq {
        col: 0,
        value: AttrValue::Int(label),
    }])
}

fn found(h: &Hnsw, at: f32, k: usize, ef: usize) -> Vec<(f32, usize)> {
    h.search_filtered(&kernel, &[at.to_bits()], k, ef, &labelled(1))
        .unwrap()
        .into_iter()
        .map(|(d, id)| (f32::from_bits(d), id))
        .collect()
}

#[test]
fn a_search_short_of_matches_goes_back() {
    let h = handmade(
        0,
        &[
            point(0.0, 1, &[&[1, 2]]),
            point(1.0, 1, &[&[0]]),
            point(2.0, 0, &[&[0, 3]]),
            point(3.0, 0, &[&[2, 4]]),
            point(10.0, 1, &[&[3]]),
        ],
    );
    assert_eq!(found(&h, 0.0, 3, 3), [(0.0, 0), (1.0, 1), (100.0, 4)]);
    assert_eq!(found(&h, 0.0, 2, 2), [(0.0, 0), (1.0, 1)]);
}

#[test]
fn going_back_starts_from_the_nearest() {
    // An arm of failing nodes off each of two matching ones, with a match at the
    // end, and an allowance that gets to the end of one of them only.
    let arm = |start: f32, from: u64, first: u64, last: u64| -> Vec<Point> {
        (first..=last)
            .map(|id| {
                let back = if id == first { from } else { id - 1 };
                let on: &[u64] = if id == last { &[] } else { &[id + 1] };
                let links = [&[back], on].concat();
                point(start + id as f32, (id == last) as i64, &[&links])
            })
            .collect()
    };
    for (one, other, want) in [(100.0, 50.0, 21), (50.0, 100.0, 11)] {
        let mut points = vec![
            point(5.0, 1, &[&[1, 2]]),
            point(1.0, 1, &[&[0, 12]]),
        ];
        points.extend(arm(one, 0, 2, 11));
        points.extend(arm(other, 1, 12, 21));
        let h = handmade(0, &points);
        let ids: Vec<usize> = found(&h, 0.0, 3, 3).into_iter().map(|(_, id)| id).collect();
        assert_eq!(ids, [1, 0, want]);
    }
}

/// Failing nodes in a row, with the match at the end.
fn corridor(len: u64) -> Hnsw {
    let points: Vec<Point> = (0..=len)
        .map(|id| {
            let mut links = Vec::new();
            if id > 0 {
                links.push(id - 1);
            }
            if id < len {
                links.push(id + 1);
            }
            point(id as f32, (id == len) as i64, &[&links])
        })
        .collect();
    handmade(0, &points)
}

#[test]
fn detours_are_four_times_the_budget() {
    // Two of the steps are hops that cost nothing.
    for ef in [1u64, 2, 5] {
        let reach = 4 * ef + 2;
        let end = reach as usize;
        assert_eq!(
            found(&corridor(reach), 0.0, 1, ef as usize),
            [((reach * reach) as f32, end)]
        );
        assert!(found(&corridor(reach + 1), 0.0, 1, ef as usize).is_empty());
    }
}

#[test]
fn expansions_are_sixteen_times_the_budget() {
    for ef in [1usize, 3] {
        for (len, want) in [(16 * ef, 1), (16 * ef + 1, 0)] {
            let points: Vec<Point> = (0..=len as u64)
                .map(|id| {
                    let near: Vec<u64> = [id.checked_sub(1), Some(id + 1)]
                        .into_iter()
                        .flatten()
                        .filter(|&k| k <= len as u64)
                        .collect();
                    point(id as f32, 1, &[&near])
                })
                .collect();
            let mut h = handmade(0, &points);
            for id in 0..len {
                h.delete(id).unwrap();
            }
            assert_eq!(found(&h, 0.0, 1, ef).len(), want);
        }
    }
}

#[test]
fn the_descent_looks_for_a_match_too() {
    let h = handmade(
        1,
        &[
            point(0.0, 0, &[&[2], &[1]]),
            point(1000.0, 1, &[&[3], &[0]]),
            point(1.0, 0, &[&[0]]),
            point(999.0, 1, &[&[1]]),
        ],
    );
    assert_eq!(
        found(&h, 0.0, 2, 2),
        [(999.0 * 999.0, 3), (1_000_000.0, 1)]
    );
}

#[test]
fn matches_far_from_the_query_are_found() {
    let mut h = Hnsw::new(HnswParams::default());
    let mut state = 0x9E37_79B9_7F4A_7C15u64;
    let mut unit = || (xorshift64(&mut state) >> 40) as f32 / 16_777_216.0;
    let mut rows = Vec::new();
    for _ in 0..2000 {
        let v = [unit(), unit()];
        let row = vec![AttrValue::Int((v[0] > 0.95) as i64)];
        h.insert_with_attrs(&kernel, &level, v.map(f32::to_bits).to_vec(), row)
            .unwrap();
        rows.push(v);
    }
    let mut want: Vec<(f32, usize)> = rows
        .iter()
        .enumerate()
        .filter(|(_, v)| v[0] > 0.95)
        .map(|(id, v)| (v[0] * v[0] + v[1] * v[1], id))
        .collect();
    want.sort_by(|a, b| a.0.total_cmp(&b.0));
    let got = h
        .search_filtered(&kernel, &[0, 0], 10, 20, &labelled(1))
        .unwrap();
    assert_eq!(got.len(), 10);
    let hits = got
        .iter()
        .filter(|(_, id)| want[..10].iter().any(|(_, w)| w == id))
        .count();
    assert!(hits >= 8, "{hits} of the ten nearest");
}
