use battleform::hex::{hex_distance, hex_neighbors, hexes_in_radius, offset_to_cube, Position};

#[test]
fn test_hex_distance_same() {
    let a = Position::new(5, 5);
    assert_eq!(hex_distance(a, a), 0);
}

#[test]
fn test_hex_distance_adjacent() {
    let a = Position::new(3, 3);
    for neighbor in hex_neighbors(a) {
        assert_eq!(hex_distance(a, neighbor), 1);
    }
}

#[test]
fn test_hex_neighbors_count() {
    let pos = Position::new(5, 5);
    let neighbors = hex_neighbors(pos);
    assert_eq!(neighbors.len(), 6);
}

#[test]
fn test_hexes_in_radius_center() {
    let center = Position::new(5, 5);
    let hexes = hexes_in_radius(center, 0);
    assert_eq!(hexes.len(), 1);
    assert_eq!(hexes[0], center);
}

#[test]
fn test_hexes_in_radius_1() {
    let center = Position::new(5, 5);
    let hexes = hexes_in_radius(center, 1);
    // Center + 6 neighbors = 7
    assert_eq!(hexes.len(), 7);
    assert!(hexes.contains(&center));
}

#[test]
fn test_offset_to_cube_roundtrip() {
    // Verify cube coordinate constraint q + r + s = 0
    for row in 0..10 {
        for col in 0..10 {
            let c = offset_to_cube(col, row);
            assert_eq!(c.q + c.r + c.s, 0, "Cube constraint violated at ({}, {})", col, row);
        }
    }
}

#[test]
fn hex_distance_known_values() {
    // Odd rows are shifted right: (3,3) to (5,5) is two rows and one cube column away.
    assert_eq!(hex_distance(Position::new(0, 0), Position::new(3, 0)), 3);
    assert_eq!(hex_distance(Position::new(0, 0), Position::new(0, 4)), 4);
    assert_eq!(hex_distance(Position::new(3, 3), Position::new(5, 5)), 3);
    assert_eq!(hex_distance(Position::new(2, 2), Position::new(29, 29)), 41);
}

#[test]
fn hex_distance_is_symmetric_on_samples() {
    let pts = [Position::new(0, 0), Position::new(7, 3), Position::new(-4, 9), Position::new(12, -5)];
    for a in pts {
        for b in pts {
            assert_eq!(hex_distance(a, b), hex_distance(b, a));
        }
    }
}

#[test]
fn offset_to_cube_known_values() {
    let c = offset_to_cube(3, 5);
    assert_eq!((c.q, c.r, c.s), (1, 5, -6));
    let d = offset_to_cube(-1, -3);
    assert_eq!((d.q, d.r, d.s), (1, -3, 2));
}

#[test]
fn neighbors_differ_on_odd_and_even_rows() {
    let even = hex_neighbors(Position::new(4, 4));
    assert!(even.contains(&Position::new(3, 3)));
    assert!(even.contains(&Position::new(4, 3)));
    let odd = hex_neighbors(Position::new(4, 5));
    assert!(odd.contains(&Position::new(4, 4)));
    assert!(odd.contains(&Position::new(5, 4)));
}

#[test]
fn hexes_in_radius_counts_and_bounds() {
    for r in 0..6u32 {
        let center = Position::new(10, 7);
        let hexes = hexes_in_radius(center, r);
        assert_eq!(hexes.len() as u32, 3 * r * (r + 1) + 1);
        for h in &hexes {
            assert!(hex_distance(center, *h) <= r);
        }
        for i in 0..hexes.len() {
            for j in (i + 1)..hexes.len() {
                assert_ne!(hexes[i], hexes[j]);
            }
        }
    }
}

#[test]
fn offset_to_cube_far_from_the_origin() {
    let c = offset_to_cube((1 << 29) - 1, -(1 << 29));
    assert_eq!((c.q, c.r, c.s), ((1 << 29) - 1 + (1 << 28), -(1 << 29), (1 << 29) - ((1 << 29) - 1 + (1 << 28))));
    let d = offset_to_cube(0, i32::MIN);
    assert_eq!((d.q, d.r, d.s), (1 << 30, i32::MIN, 1 << 30));
    let e = offset_to_cube(5, -7);
    assert_eq!((e.q, e.r, e.s), (9, -7, -2));
}

#[test]
fn distance_counts_neighbor_steps() {
    for start in [Position::new(0, 0), Position::new(3, 4), Position::new(-5, -3)] {
        let mut depth: std::collections::HashMap<(i32, i32), u32> = std::collections::HashMap::new();
        depth.insert((start.x, start.y), 0);
        let mut frontier = vec![start];
        for d in 1..=6u32 {
            let mut next = vec![];
            for p in &frontier {
                for n in hex_neighbors(*p) {
                    if !depth.contains_key(&(n.x, n.y)) {
                        depth.insert((n.x, n.y), d);
                        next.push(n);
                    }
                }
            }
            frontier = next;
        }
        for (&(x, y), &d) in &depth {
            assert_eq!(hex_distance(start, Position::new(x, y)), d);
        }
        // Every cell at distance one is a neighbor.
        for dx in -3..=3 {
            for dy in -3..=3 {
                let q = Position::new(start.x + dx, start.y + dy);
                if hex_distance(start, q) == 1 {
                    assert!(hex_neighbors(start).contains(&q));
                }
            }
        }
    }
}
