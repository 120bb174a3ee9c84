use rotation_renderer::polygon::{check_polygon, ordered_polygon, PolygonCorner, PositionKey};

fn at(x: u32) -> PositionKey {
    PositionKey { x, y: 0, z: 0, unique: 0 }
}

fn corner(position: PositionKey, connection_1: PositionKey, connection_2: PositionKey) -> PolygonCorner {
    PolygonCorner { position, connection_1, connection_2 }
}

#[test]
fn ordered_polygon_joins_neighbours_around_the_ring() {
    let (a, b, c, d) = (at(1), at(2), at(3), at(4));
    let corners = ordered_polygon(&vec![a, b, c, d]).unwrap();
    assert_eq!(
        corners,
        vec![corner(a, d, b), corner(b, a, c), corner(c, b, d), corner(d, c, a)]
    );
    assert_eq!(check_polygon(&corners), Ok(()));
}

#[test]
fn ordered_polygon_needs_three_positions() {
    assert_eq!(
        ordered_polygon(&vec![at(1), at(2)]),
        Err("to few corners for Triangle creation".to_string())
    );
    assert_eq!(ordered_polygon(&vec![]), Err("to few corners for Triangle creation".to_string()));
}

#[test]
fn ordered_polygon_of_distinct_positions_is_connected() {
    // the ring law on concrete positions
    for n in 3..8u32 {
        let positions: Vec<PositionKey> = (0..n).map(at).collect();
        assert!(ordered_polygon(&positions).is_ok(), "{}", n);
    }
}

#[test]
fn check_polygon_counts_connections_per_corner() {
    let (a, b, c) = (at(1), at(2), at(3));
    let message = "Not all corners are properly connected, cant make Triangle :(".to_string();
    assert_eq!(
        check_polygon(&vec![corner(a, b, b), corner(b, a, c), corner(c, a, b)]),
        Err(message.clone())
    );
    assert_eq!(check_polygon(&vec![corner(a, b, c), corner(b, a, c)]), Err(message));
    assert_eq!(check_polygon(&vec![]), Err("to few corners to Polygon :(".to_string()));
    assert_eq!(check_polygon(&vec![corner(a, b, c), corner(b, a, c), corner(c, a, b)]), Ok(()));
}
