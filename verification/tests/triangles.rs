use rotation_renderer::color::Color;
use rotation_renderer::rows::ScreenPoint;
use rotation_renderer::screen_points::{OptimisedScreenPoint, ShadingOptimisedScreenPoints};
use rotation_renderer::triangles::{
    can_fill, check_triangle_corners, fill_rows, index_corners, sphere_faces, with_shading_signature,
    CornerKey,
};

fn run(color: Color, occurence_length: u32, x: u32) -> OptimisedScreenPoint {
    OptimisedScreenPoint::new(color, occurence_length, x)
}

fn key(position_x: u32, unique: u64) -> CornerKey {
    CornerKey {
        position_x,
        position_y: 0,
        position_z: 0,
        normal_x: 0,
        normal_y: 0,
        normal_z: 0,
        texture_x: 0,
        texture_y: 0,
        unique,
    }
}

#[test]
fn fill_rows_bridges_pairs_of_bounds() {
    let edge = Color::black();
    let fill = Color::new(10, 20, 30);
    let rows = vec![
        vec![run(edge, 1, 2), run(edge, 1, 6)],
        vec![run(edge, 1, 4)],
        vec![run(edge, 1, 1), run(edge, 1, 3), run(edge, 1, 8)],
        vec![],
        vec![run(edge, 1, 1), run(edge, 1, 3), run(edge, 2, 5), run(edge, 1, 9)],
    ];
    let filled = fill_rows(rows, fill);
    assert_eq!(
        filled,
        vec![
            vec![run(fill, 5, 2)],
            vec![run(edge, 1, 4)],
            vec![run(fill, 8, 1)],
            vec![],
            vec![run(fill, 3, 1), run(fill, 5, 5)],
        ]
    );
}

#[test]
fn with_shading_signature_keeps_extents() {
    let c = Color::white();
    let rows = vec![vec![run(c, 3, 1), run(c, 2, 7)], vec![]];
    assert_eq!(
        with_shading_signature(&rows, 4),
        vec![
            vec![
                ShadingOptimisedScreenPoints::new(4, 3, 1),
                ShadingOptimisedScreenPoints::new(4, 2, 7)
            ],
            vec![]
        ]
    );
}

#[test]
fn check_triangle_corners_needs_three_corners() {
    let few = "to few or to many corners to make Triangle :(".to_string();
    assert_eq!(check_triangle_corners(&vec![key(1, 0), key(2, 0)]), Err(few.clone()));
    assert_eq!(
        check_triangle_corners(&vec![key(1, 0), key(2, 0), key(3, 0), key(4, 0)]),
        Err(few.clone())
    );
    assert_eq!(check_triangle_corners(&vec![]), Err(few));
}

#[test]
fn check_triangle_corners_needs_distinct_corners() {
    let same = "Not all corners are unique :(".to_string();
    assert_eq!(check_triangle_corners(&vec![key(1, 0), key(2, 0), key(3, 0)]), Ok(()));
    assert_eq!(check_triangle_corners(&vec![key(1, 0), key(2, 0), key(1, 0)]), Err(same.clone()));
    assert_eq!(check_triangle_corners(&vec![key(5, 0), key(5, 0), key(5, 0)]), Err(same));
    // keys that differ only in the tie-breaker count as different corners
    assert_eq!(check_triangle_corners(&vec![key(1, 0), key(1, 1), key(1, 2)]), Ok(()));
}

#[test]
fn index_corners_lists_each_corner_once() {
    let (a, b, c, d) = (key(1, 0), key(2, 0), key(3, 0), key(4, 0));
    let (firsts, indexes) = index_corners(&vec![a, b, c, a, c, d]);
    assert_eq!(firsts, vec![0, 1, 2, 5]);
    assert_eq!(indexes, vec![0, 1, 2, 0, 2, 3]);
}

#[test]
fn index_corners_reproduces_the_mesh() {
    // the indexing law on a concrete mesh: the listed corner at each index is the input corner
    let keys = vec![key(7, 0), key(7, 0), key(3, 0), key(9, 1), key(3, 0), key(9, 1), key(1, 0)];
    let (firsts, indexes) = index_corners(&keys);
    assert_eq!(indexes.len(), keys.len());
    for (i, k) in keys.iter().enumerate() {
        assert_eq!(keys[firsts[indexes[i] as usize]], *k);
    }
    for (n, f) in firsts.iter().enumerate() {
        assert!(keys[..*f].iter().all(|k| *k != keys[*f]));
        assert!(firsts[..n].iter().all(|g| keys[*g] != keys[*f]));
    }
}

#[test]
fn index_corners_of_nothing_is_empty() {
    assert_eq!(index_corners(&vec![]), (vec![], vec![]));
}

#[test]
fn sphere_faces_walks_each_pair_of_layers_twice() {
    let faces = sphere_faces(3, 3);
    assert_eq!(faces.len(), 12);
    assert_eq!(faces[0], [(0, 0), (1, 0), (0, 1)]);
    assert_eq!(faces[2], [(0, 2), (1, 2), (0, 0)]);
    assert_eq!(faces[3], [(1, 0), (0, 1), (1, 1)]);
    assert_eq!(faces[5], [(1, 2), (0, 0), (1, 0)]);
    assert_eq!(faces[6], [(1, 0), (2, 0), (1, 1)]);
    assert_eq!(faces[11], [(2, 2), (1, 0), (2, 0)]);
    for face in faces.iter() {
        for (layer, position) in face.iter() {
            assert!(*layer < 3 && *position < 3);
        }
    }
}

#[test]
fn sphere_faces_needs_two_layers_and_a_vertex() {
    assert!(sphere_faces(4, 1).is_empty());
    assert!(sphere_faces(4, 0).is_empty());
    assert!(sphere_faces(0, 5).is_empty());
    assert_eq!(sphere_faces(1, 2), vec![[(0, 0), (1, 0), (0, 0)], [(1, 0), (0, 0), (1, 0)]]);
}

#[test]
fn can_fill_checks_the_pairs_of_bounds() {
    let c = Color::black();
    assert!(can_fill(&vec![vec![run(c, 1, 2), run(c, 1, 6)]]));
    assert!(!can_fill(&vec![vec![run(c, 1, 6), run(c, 1, 2)]]));
    assert!(can_fill(&vec![vec![run(c, 1, 5)], vec![]]));
    // with three runs the second one is left out of the pairs
    assert!(can_fill(&vec![vec![run(c, 1, 1), run(c, 1, 9), run(c, 1, 3)]]));
    assert!(!can_fill(&vec![vec![run(c, 1, 5), run(c, 1, 1), run(c, 1, 3)]]));
    assert!(!can_fill(&vec![vec![run(c, 1, 0), run(c, 1, u32::MAX)]]));
}

#[test]
fn optimised_outlines_can_be_filled() {
    // the filling law on a concrete outline: the rows that optimising makes can be filled
    let edge = Color::black();
    let fill = Color::white();
    let at = |x: i64, y: i64| ScreenPoint { x, y, color: edge };
    let points = vec![at(5, 1), at(8, 2), at(2, 2), at(1, 3), at(9, 3), at(4, 3)];
    let rows = OptimisedScreenPoint::optimise_screen_point_collection(points, 4, 10).unwrap();
    assert!(can_fill(&rows));
    assert_eq!(
        fill_rows(rows, fill),
        vec![vec![run(edge, 1, 5)], vec![run(fill, 7, 2)], vec![run(fill, 9, 1)], vec![]]
    );
}
