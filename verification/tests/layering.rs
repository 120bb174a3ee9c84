use rotation_renderer::color::Color;
use rotation_renderer::screen_points::{OptimisedScreenPoint, ShadingOptimisedScreenPoints};

fn run(color: Color, occurence_length: u32, x: u32) -> OptimisedScreenPoint {
    OptimisedScreenPoint::new(color, occurence_length, x)
}

fn shaded(shading_signature: u32, occurence_length: u32, x: u32) -> ShadingOptimisedScreenPoints {
    ShadingOptimisedScreenPoints::new(shading_signature, occurence_length, x)
}

#[test]
fn layer_cuts_lower_run_around_upper_run() {
    let red = Color::new(255, 0, 0);
    let blue = Color::new(0, 0, 255);
    let lower = vec![vec![run(red, 10, 1)]];
    let upper = vec![vec![run(blue, 3, 4)]];
    let layered = OptimisedScreenPoint::layer(lower, upper).unwrap();
    assert_eq!(layered, vec![vec![run(red, 3, 1), run(blue, 3, 4), run(red, 4, 7)]]);
}

#[test]
fn layer_sorts_rows_before_sweeping() {
    let red = Color::new(255, 0, 0);
    let blue = Color::new(0, 0, 255);
    let lower = vec![vec![run(red, 2, 20), run(red, 3, 1)]];
    let upper = vec![vec![run(blue, 2, 2)]];
    let layered = OptimisedScreenPoint::layer(lower, upper).unwrap();
    assert_eq!(layered, vec![vec![run(red, 1, 1), run(blue, 2, 2), run(red, 2, 20)]]);
}

#[test]
fn layer_drops_covered_lower_run_and_keeps_right_part() {
    let red = Color::new(255, 0, 0);
    let blue = Color::new(0, 0, 255);
    // lower 5..6 lies inside upper 4..8; lower 7..12 sticks out on the right
    let lower = vec![vec![run(red, 2, 5), run(red, 6, 7)]];
    let upper = vec![vec![run(blue, 5, 4)]];
    let layered = OptimisedScreenPoint::layer(lower, upper).unwrap();
    assert_eq!(layered, vec![vec![run(blue, 5, 4), run(red, 4, 9)]]);
}

#[test]
fn layer_pads_a_shorter_lower_layer() {
    let red = Color::new(255, 0, 0);
    let upper = vec![vec![run(red, 1, 3)], vec![run(red, 2, 0)]];
    let layered = OptimisedScreenPoint::layer(vec![], upper.clone()).unwrap();
    assert_eq!(layered, upper);
}

#[test]
fn layer_keeps_lower_row_sorted_under_an_empty_upper_row() {
    let red = Color::new(255, 0, 0);
    let lower = vec![vec![run(red, 2, 5), run(red, 1, 1)]];
    let layered = OptimisedScreenPoint::layer(lower, vec![vec![]]).unwrap();
    assert_eq!(layered, vec![vec![run(red, 1, 1), run(red, 2, 5)]]);
}

#[test]
fn layer_paints_every_upper_pixel_over_the_lower_layer() {
    // the painting law on concrete rows: each column shows the upper colour where the upper
    // row covers it and the lower colour elsewhere
    let red = Color::new(255, 0, 0);
    let blue = Color::new(0, 0, 255);
    let lower = vec![run(red, 4, 0), run(red, 5, 10)];
    let upper = vec![run(blue, 3, 2), run(blue, 2, 12)];
    let layered = OptimisedScreenPoint::layer(vec![lower.clone()], vec![upper.clone()]).unwrap();
    let colour_at = |row: &Vec<OptimisedScreenPoint>, p: u32| -> Option<Color> {
        row.iter()
            .find(|a| a.x <= p && p < a.x + a.occurence_length)
            .map(|a| a.color)
    };
    for p in 0..20 {
        let expected = colour_at(&upper, p).or(colour_at(&lower, p));
        assert_eq!(colour_at(&layered[0], p), expected, "column {}", p);
        let covering = layered[0].iter().filter(|a| a.x <= p && p < a.x + a.occurence_length).count();
        assert!(covering <= 1);
    }
}

#[test]
fn shading_layer_cuts_lower_run_at_upper_start() {
    let layered = ShadingOptimisedScreenPoints::layer(vec![vec![shaded(0, 5, 0)]], vec![vec![shaded(1, 2, 2)]]).unwrap();
    assert_eq!(layered, vec![vec![shaded(0, 2, 0), shaded(1, 2, 2)]]);
}

#[test]
fn shading_layer_moves_lower_run_behind_upper_run() {
    let layered = ShadingOptimisedScreenPoints::layer(vec![vec![shaded(0, 3, 5)]], vec![vec![shaded(1, 2, 4)]]).unwrap();
    assert_eq!(layered, vec![vec![shaded(1, 2, 4), shaded(0, 6, 6)]]);
}

#[test]
fn shading_layer_keeps_lower_row_under_empty_upper_row() {
    let lower = vec![vec![shaded(3, 2, 1), shaded(3, 1, 0)], vec![]];
    let layered = ShadingOptimisedScreenPoints::layer(lower.clone(), vec![vec![], vec![], vec![shaded(1, 1, 1)]]).unwrap();
    assert_eq!(layered, lower);
}

#[test]
fn shading_layer_keeps_upper_runs_before_the_lower_run() {
    let layered = ShadingOptimisedScreenPoints::layer(
        vec![vec![shaded(0, 2, 10)]],
        vec![vec![shaded(1, 1, 0), shaded(2, 1, 2), shaded(3, 1, 11)]],
    )
    .unwrap();
    // runs 0..1 and 2..3 end before column 10; the lower run starts before the upper run at 11
    assert_eq!(
        layered,
        vec![vec![shaded(1, 1, 0), shaded(2, 1, 2), shaded(0, 1, 10), shaded(3, 1, 11)]]
    );
}

#[test]
fn new_from_optimised_keeps_extent() {
    let red = Color::new(255, 0, 0);
    assert_eq!(ShadingOptimisedScreenPoints::new_from_optimised(run(red, 4, 9), 7), shaded(7, 4, 9));
}

#[test]
fn shading_layer_keeps_every_upper_run() {
    // the keeping law on concrete rows: each upper run shows up whole in the layered row
    let lower = vec![vec![shaded(0, 4, 0), shaded(0, 3, 9), shaded(0, 2, 20)]];
    let upper = vec![vec![shaded(1, 2, 2), shaded(2, 3, 8), shaded(3, 1, 30)]];
    assert!(ShadingOptimisedScreenPoints::can_layer(&lower, &upper));
    let layered = ShadingOptimisedScreenPoints::layer(lower, upper.clone()).unwrap();
    for run in upper[0].iter() {
        assert!(layered[0].contains(run), "{:?}", run);
    }
}

#[test]
fn layer_keeps_rows_sorted_with_nonempty_runs() {
    // the ordering law on concrete rows: layered rows are sorted by column, each run non-empty
    // and ending before the next begins
    let red = Color::new(255, 0, 0);
    let blue = Color::new(0, 0, 255);
    let lower = vec![vec![run(red, 5, 10), run(red, 6, 0)], vec![run(red, 3, 4)]];
    let upper = vec![vec![run(blue, 2, 4), run(blue, 4, 12)], vec![run(blue, 1, 5)], vec![run(blue, 2, 1)]];
    let layered = OptimisedScreenPoint::layer(lower, upper).unwrap();
    assert_eq!(layered.len(), 3);
    for row in layered.iter() {
        for a in row.iter() {
            assert!(a.occurence_length >= 1);
        }
        for pair in row.windows(2) {
            assert!(pair[0].x + pair[0].occurence_length <= pair[1].x, "{:?}", row);
        }
    }
    assert_eq!(
        layered[0],
        vec![run(red, 4, 0), run(blue, 2, 4), run(red, 2, 10), run(blue, 4, 12)]
    );
}
