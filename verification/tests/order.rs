use kitti_boxes::order::{arrange, canonical_order, sort_vertexes};
use kitti_boxes::vertex::{coordinate_key, corner, Corner, Vertex};

fn vertex(x: f32, y: f32, z: f32) -> Vertex {
    Vertex::from_bits(x.to_bits(), y.to_bits(), z.to_bits())
}

/// The order that three rounds of stable sorting give: all corners by `z`,
/// each four by `x`, each two by `y`.
fn by_stable_sorting(points: &[[f32; 3]; 8]) -> [usize; 8] {
    let mut order: Vec<usize> = (0..8).collect();
    let key = |axis: usize| move |a: &usize, b: &usize| points[*a][axis].partial_cmp(&points[*b][axis]).unwrap();
    order.sort_by(key(2));
    order[0..4].sort_by(key(0));
    order[0..2].sort_by(key(1));
    order[2..4].sort_by(key(1));
    order[4..8].sort_by(key(0));
    order[4..6].sort_by(key(1));
    order[6..8].sort_by(key(1));
    let mut out = [0usize; 8];
    out.copy_from_slice(&order);
    out
}

fn vertices(points: &[[f32; 3]; 8]) -> [Vertex; 8] {
    let mut out = [vertex(0.0, 0.0, 0.0); 8];
    for i in 0..8 {
        out[i] = vertex(points[i][0], points[i][1], points[i][2]);
    }
    out
}

/// The corners of a box as it is built: center, height, width, length, yaw.
fn built(center: [f32; 3], h: f32, w: f32, l: f32, ry: f32) -> [[f32; 3]; 8] {
    let mut points = [[0.0f32; 3]; 8];
    for i in 0..8 {
        let c = corner(i);
        let dx = f32::from(c.width) * w / 2.0;
        let dy = f32::from(c.length) * l / 2.0;
        let x = dx * ry.cos() - dy * ry.sin();
        let y = dx * ry.sin() + dy * ry.cos();
        let z = if c.top { center[2] + h } else { center[2] };
        points[i] = [x + center[0], y + center[1], z];
    }
    points
}

#[test]
fn a_box_is_built_face_by_face() {
    let expected = [
        (1, 1, false),
        (1, -1, false),
        (-1, 1, false),
        (-1, -1, false),
        (1, 1, true),
        (1, -1, true),
        (-1, 1, true),
        (-1, -1, true),
    ];
    for i in 0..8 {
        let (width, length, top) = expected[i];
        assert_eq!(corner(i), Corner { width, length, top });
    }
}

#[test]
fn an_upright_box_at_the_origin_comes_out_in_canonical_order() {
    // Center (0, 0, 0), height 2, width 2, length 4, no yaw.
    let points = built([0.0, 0.0, 0.0], 2.0, 2.0, 4.0, 0.0);
    let order = canonical_order(&vertices(&points));
    let sorted: Vec<[f32; 3]> = order.iter().map(|&i| points[i]).collect();
    assert_eq!(
        sorted,
        vec![
            [-1.0, -2.0, 0.0],
            [-1.0, 2.0, 0.0],
            [1.0, -2.0, 0.0],
            [1.0, 2.0, 0.0],
            [-1.0, -2.0, 2.0],
            [-1.0, 2.0, 2.0],
            [1.0, -2.0, 2.0],
            [1.0, 2.0, 2.0],
        ]
    );
    assert_eq!(order, [3, 2, 1, 0, 7, 6, 5, 4]);
    let lowest = sorted.iter().map(|p| p[2]).fold(f32::INFINITY, f32::min);
    assert!(sorted[0..4].iter().all(|p| p[2] == lowest));
}

#[test]
fn the_order_is_a_list_of_all_eight_corners() {
    let points = built([3.0, -2.0, 1.0], 1.5, 1.6, 3.9, 0.4);
    let mut order = canonical_order(&vertices(&points)).to_vec();
    assert_eq!(order.len(), 8);
    order.sort();
    assert_eq!(order, vec![0, 1, 2, 3, 4, 5, 6, 7]);
}

#[test]
fn the_same_corners_give_the_same_order() {
    let points = built([3.0, -2.0, 1.0], 1.5, 1.6, 3.9, -2.2);
    let v = vertices(&points);
    assert_eq!(canonical_order(&v), canonical_order(&v));
    assert_eq!(canonical_order(&v), canonical_order(&vertices(&points)));
}

#[test]
fn turned_boxes_are_ordered_as_by_stable_sorting() {
    let mut yaw = -3.2f32;
    while yaw < 3.2 {
        let points = built([10.0, -4.0, -1.7], 1.5, 1.6, 3.9, yaw);
        assert_eq!(canonical_order(&vertices(&points)), by_stable_sorting(&points), "yaw {}", yaw);
        yaw += 0.05;
    }
}

#[test]
fn corners_that_agree_keep_their_earlier_order() {
    // Every coordinate is one of three values, so ties abound.
    let mut seed: u32 = 12345;
    let mut next = || {
        seed = seed.wrapping_mul(1664525).wrapping_add(1013904223);
        ((seed >> 16) % 3) as f32 - 1.0
    };
    for _ in 0..2000 {
        let mut points = [[0.0f32; 3]; 8];
        for p in points.iter_mut() {
            *p = [next(), next(), next()];
        }
        assert_eq!(canonical_order(&vertices(&points)), by_stable_sorting(&points), "{:?}", points);
    }
}

#[test]
fn the_order_ascends_level_by_level() {
    let mut seed: u32 = 99;
    let mut next = || {
        seed = seed.wrapping_mul(1664525).wrapping_add(1013904223);
        i64::from(seed >> 24) - 128
    };
    for _ in 0..500 {
        let mut v = [Vertex { x: 0, y: 0, z: 0 }; 8];
        for c in v.iter_mut() {
            *c = Vertex { x: next(), y: next(), z: next() };
        }
        let order = canonical_order(&v);
        for a in 0..4 {
            for b in 4..8 {
                assert!(v[order[a]].z <= v[order[b]].z);
            }
        }
        for group in [0, 4] {
            for a in group..group + 2 {
                for b in group + 2..group + 4 {
                    assert!(v[order[a]].x <= v[order[b]].x);
                }
            }
        }
        for a in [0, 2, 4, 6] {
            assert!(v[order[a]].y <= v[order[a + 1]].y);
        }
    }
}

#[test]
fn corners_that_compare_alike_have_the_same_order() {
    let points = built([3.0, -2.0, 1.0], 1.5, 1.6, 3.9, 0.7);
    let v = vertices(&points);
    // Other integers in the same order.
    let mut w = v;
    for c in w.iter_mut() {
        let f = |k: i64| (k / 1024) * 3 + 7;
        *c = Vertex { x: f(c.x), y: f(c.y), z: f(c.z) };
    }
    for i in 0..8 {
        for j in 0..8 {
            assert_eq!(v[i].x < v[j].x, w[i].x < w[j].x);
            assert_eq!(v[i].y < v[j].y, w[i].y < w[j].y);
            assert_eq!(v[i].z < v[j].z, w[i].z < w[j].z);
        }
    }
    assert_eq!(canonical_order(&v), canonical_order(&w));
}

#[test]
fn a_box_without_size_is_passed_through() {
    let points = built([1.0, 2.0, 3.0], 0.0, 0.0, 0.0, 0.0);
    assert_eq!(canonical_order(&vertices(&points)), by_stable_sorting(&points));
    let flat = [[0.0f32; 3]; 8];
    assert_eq!(canonical_order(&vertices(&flat)), [0, 1, 2, 3, 4, 5, 6, 7]);
}

#[test]
fn both_zeros_count_as_equal() {
    let mut points = [[0.0f32; 3]; 8];
    for i in 0..8 {
        points[i] = [if i % 2 == 0 { 0.0 } else { -0.0 }, if i % 3 == 0 { -0.0 } else { 0.0 }, 0.0];
    }
    assert_eq!(canonical_order(&vertices(&points)), [0, 1, 2, 3, 4, 5, 6, 7]);
    assert_eq!(canonical_order(&vertices(&points)), by_stable_sorting(&points));
}

#[test]
fn corners_that_are_not_finite_are_ordered_too() {
    let points = built([f32::INFINITY, 0.0, f32::NEG_INFINITY], 1.0, 2.0, 3.0, 0.3);
    let mut order = canonical_order(&vertices(&points)).to_vec();
    order.sort();
    assert_eq!(order, vec![0, 1, 2, 3, 4, 5, 6, 7]);
    let points = built([f32::NAN, 0.0, 1.0], 1.0, 2.0, 3.0, 0.3);
    let order = canonical_order(&vertices(&points));
    // The lower face has the places 0 to 3 of the box as built.
    assert!(order[0..4].iter().all(|&i| i < 4));
    assert!(order[4..8].iter().all(|&i| i >= 4));
}

#[test]
fn sorting_in_place_moves_each_corner_to_its_place() {
    let points = built([0.5, 0.25, -1.0], 1.0, 2.0, 3.0, 1.0);
    let before = vertices(&points);
    let mut v = before;
    let order = sort_vertexes(&mut v);
    assert_eq!(order, canonical_order(&before));
    for a in 0..8 {
        assert_eq!(v[a], before[order[a]]);
    }
    // What is in order stays as it is.
    let sorted = v;
    assert_eq!(sort_vertexes(&mut v), [0, 1, 2, 3, 4, 5, 6, 7]);
    assert_eq!(v, sorted);
}

#[test]
fn items_are_arranged_by_the_places_they_came_from() {
    let items = ["a", "b", "c", "d", "e", "f", "g", "h"];
    assert_eq!(
        arrange(&items, &[3, 2, 1, 0, 7, 6, 5, 4]),
        ["d", "c", "b", "a", "h", "g", "f", "e"]
    );
    assert_eq!(arrange(&items, &[0, 1, 2, 3, 4, 5, 6, 7]), items);
    let points = built([0.0, 0.0, 0.0], 2.0, 2.0, 4.0, 0.0);
    let order = canonical_order(&vertices(&points));
    assert_eq!(arrange(&points, &order)[0], [-1.0, -2.0, 0.0]);
    assert_eq!(arrange(&points, &order)[7], [1.0, 2.0, 2.0]);
}

#[test]
fn integers_order_corners_directly() {
    let v = [
        Vertex { x: 5, y: 5, z: 9 },
        Vertex { x: 1, y: 7, z: 0 },
        Vertex { x: 1, y: 3, z: 0 },
        Vertex { x: 2, y: 1, z: 9 },
        Vertex { x: 4, y: 0, z: 0 },
        Vertex { x: 3, y: 8, z: 9 },
        Vertex { x: 3, y: 2, z: 0 },
        Vertex { x: 9, y: 0, z: 9 },
    ];
    // Lower four: 1, 2, 4, 6; by x: 1, 2 | 6, 4; by y: 2, 1 | 4, 6.
    // Upper four: 0, 3, 5, 7; by x: 3, 5 | 0, 7; by y: 3, 5 | 7, 0.
    assert_eq!(canonical_order(&v), [2, 1, 4, 6, 3, 5, 7, 0]);
}

#[test]
fn the_key_of_a_coordinate_is_its_signed_magnitude() {
    assert_eq!(coordinate_key(0), 0);
    assert_eq!(coordinate_key(0x8000_0000), 0);
    assert_eq!(coordinate_key(1), 1);
    assert_eq!(coordinate_key(0x8000_0001), -1);
    assert_eq!(coordinate_key(0x3F80_0000), 0x3F80_0000);
    assert_eq!(coordinate_key(0xBF80_0000), -0x3F80_0000);
    assert_eq!(coordinate_key(0x7FFF_FFFF), 0x7FFF_FFFF);
    assert_eq!(coordinate_key(0xFFFF_FFFF), -0x7FFF_FFFF);
    assert_eq!(coordinate_key(1.0f32.to_bits()), 0x3F80_0000);
}

#[test]
fn keys_order_as_the_coordinates_do() {
    let values = [
        f32::NEG_INFINITY,
        f32::MIN,
        -1.0e10,
        -2.5,
        -1.0,
        -f32::MIN_POSITIVE,
        -1.0e-45,
        -0.0,
        0.0,
        1.0e-45,
        f32::MIN_POSITIVE,
        0.1,
        1.0,
        1.0000001,
        2.5,
        1.0e10,
        f32::MAX,
        f32::INFINITY,
    ];
    for a in values {
        for b in values {
            let ka = coordinate_key(a.to_bits());
            let kb = coordinate_key(b.to_bits());
            assert_eq!(ka < kb, a < b, "{} {}", a, b);
            assert_eq!(ka == kb, a == b, "{} {}", a, b);
        }
        assert!(coordinate_key(f32::NAN.to_bits()) > coordinate_key(a.to_bits()));
        assert!(coordinate_key((-f32::NAN).to_bits()) < coordinate_key(a.to_bits()));
    }
}

#[test]
fn a_corner_from_bit_patterns_holds_their_keys() {
    let v = vertex(1.0, -1.0, 0.0);
    assert_eq!(v, Vertex { x: 0x3F80_0000, y: -0x3F80_0000, z: 0 });
}
