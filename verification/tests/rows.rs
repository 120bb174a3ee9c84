use rotation_renderer::color::Color;
use rotation_renderer::rows::{keep_on_screen, sort_screen_points, ScreenPoint};
use rotation_renderer::screen_points::OptimisedScreenPoint;

fn point(x: i64, y: i64, color: Color) -> ScreenPoint {
    ScreenPoint { x, y, color }
}

fn run(color: Color, occurence_length: u32, x: u32) -> OptimisedScreenPoint {
    OptimisedScreenPoint::new(color, occurence_length, x)
}

#[test]
fn sort_screen_points_groups_rows_and_drops_repeated_points() {
    let red = Color::new(255, 0, 0);
    let blue = Color::new(0, 0, 255);
    let input = vec![
        point(3, 2, red),
        point(1, 1, red),
        point(2, 2, red),
        point(1, 1, red),
        point(1, 2, blue),
    ];
    let rows = sort_screen_points(input);
    assert_eq!(
        rows,
        vec![
            vec![point(1, 1, red)],
            vec![point(1, 2, blue), point(2, 2, red), point(3, 2, red)],
        ]
    );
}

#[test]
fn sort_screen_points_keeps_order_within_a_column() {
    let red = Color::new(255, 0, 0);
    let blue = Color::new(0, 0, 255);
    let input = vec![point(5, 0, red), point(5, 0, blue), point(5, 0, red)];
    let rows = sort_screen_points(input.clone());
    assert_eq!(rows, vec![input]);
}

#[test]
fn sort_screen_points_orders_negative_rows_first() {
    let red = Color::new(255, 0, 0);
    let rows = sort_screen_points(vec![point(0, 0, red), point(4, -1, red), point(2, -1, red)]);
    assert_eq!(
        rows,
        vec![vec![point(2, -1, red), point(4, -1, red)], vec![point(0, 0, red)]]
    );
}

#[test]
fn sort_screen_points_of_nothing_is_empty() {
    assert!(sort_screen_points(vec![]).is_empty());
}

#[test]
fn optimise_encodes_runs_per_row() {
    let red = Color::new(255, 0, 0);
    let blue = Color::new(0, 0, 255);
    let green = Color::new(0, 255, 0);
    let points = vec![
        point(1, 1, red),
        point(2, 1, red),
        point(3, 1, blue),
        point(5, 1, blue),
        point(2, 3, green),
        point(2, 3, green),
        point(0, 0, red),
        point(12, 2, red),
    ];
    let rows = OptimisedScreenPoint::optimise_screen_point_collection(points, 5, 10).unwrap();
    assert_eq!(
        rows,
        vec![
            vec![run(red, 2, 1), run(blue, 1, 3), run(blue, 1, 5)],
            vec![],
            vec![run(green, 1, 2)],
            vec![],
            vec![],
        ]
    );
}

#[test]
fn optimise_of_no_points_gives_empty_rows() {
    let rows = OptimisedScreenPoint::optimise_screen_point_collection(vec![], 3, 3).unwrap();
    assert_eq!(rows, vec![vec![], vec![], vec![]]);
}

#[test]
fn optimise_drops_rows_that_leave_the_screen() {
    let red = Color::new(255, 0, 0);
    // row 2 has a point in column 4 of a screen 4 wide; row 3 lies below a screen 3 high
    let points = vec![point(1, 2, red), point(4, 2, red), point(0, 3, red), point(0, 1, red)];
    let rows = OptimisedScreenPoint::optimise_screen_point_collection(points, 3, 4).unwrap();
    assert_eq!(rows, vec![vec![run(red, 1, 0)], vec![], vec![]]);
}

#[test]
fn optimise_refuses_an_empty_screen() {
    let red = Color::new(255, 0, 0);
    let message = "optimisation of screen points failed because of an inapropiate screen height or width";
    assert_eq!(
        OptimisedScreenPoint::optimise_screen_point_collection(vec![point(1, 1, red)], 0, 10),
        Err(message.to_string())
    );
    assert_eq!(
        OptimisedScreenPoint::optimise_screen_point_collection(vec![], 4, 0),
        Err(message.to_string())
    );
}

#[test]
fn optimise_covers_every_kept_point() {
    // the covering law on concrete points: every point of a kept row lies in a run of its
    // colour in entry y - 1
    let red = Color::new(255, 0, 0);
    let blue = Color::new(0, 0, 255);
    let points = vec![
        point(4, 2, red),
        point(1, 2, red),
        point(2, 2, blue),
        point(3, 2, red),
        point(7, 1, blue),
        point(6, 1, blue),
    ];
    let rows = OptimisedScreenPoint::optimise_screen_point_collection(points.clone(), 4, 9).unwrap();
    assert_eq!(rows.len(), 4);
    for p in points.iter() {
        let row = &rows[(p.y - 1) as usize];
        assert!(row.iter().any(|r| r.color == p.color
            && (r.x as i64) <= p.x
            && p.x < (r.x + r.occurence_length) as i64));
    }
    assert_eq!(rows[0], vec![run(blue, 2, 6)]);
    assert_eq!(rows[1], vec![run(red, 1, 1), run(blue, 1, 2), run(red, 2, 3)]);
}

#[test]
fn keep_on_screen_drops_points_off_the_screen() {
    let red = Color::new(255, 0, 0);
    let points = vec![
        point(0, 1, red),
        point(1, 1, red),
        point(3, 2, red),
        point(4, 2, red),
        point(2, 0, red),
        point(2, 3, red),
    ];
    assert_eq!(
        keep_on_screen(points, 3, 2),
        vec![point(1, 1, red), point(3, 2, red)]
    );
}
