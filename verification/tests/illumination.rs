use rotation_renderer::illumination::{
    fuse_rows, nonempty_row_range, overshadowing_signatures, shadowing_signatures, visibility_of,
    ShadowBook, Visibility,
};
use rotation_renderer::sorting::sort_by_key;
use rotation_renderer::screen_points::ShadingOptimisedScreenPoints;

fn shaded(shading_signature: u32, occurence_length: u32, x: u32) -> ShadingOptimisedScreenPoints {
    ShadingOptimisedScreenPoints::new(shading_signature, occurence_length, x)
}

#[test]
fn fuse_rows_concatenates_rows_in_order() {
    let rows = vec![vec![shaded(1, 2, 0), shaded(2, 1, 4)], vec![], vec![shaded(0, 3, 1)]];
    assert_eq!(fuse_rows(&rows), vec![shaded(1, 2, 0), shaded(2, 1, 4), shaded(0, 3, 1)]);
    assert_eq!(fuse_rows(&vec![]), vec![]);
}

#[test]
fn nonempty_row_range_finds_the_first_block_of_rows() {
    let a = shaded(1, 1, 1);
    assert_eq!(
        nonempty_row_range(&vec![vec![], vec![a], vec![a, a], vec![], vec![a]]),
        (Some(1), Some(3))
    );
    assert_eq!(nonempty_row_range(&vec![vec![], vec![]]), (None, None));
    assert_eq!(nonempty_row_range(&vec![vec![a], vec![a]]), (Some(0), None));
    assert_eq!(nonempty_row_range(&vec![]), (None, None));
}

#[test]
fn overshadowing_signatures_are_sorted_and_distinct() {
    let a = shaded(5, 1, 0);
    let b = shaded(2, 1, 1);
    let c = shaded(5, 2, 2);
    let d = shaded(7, 1, 4);
    let e = shaded(9, 1, 5);
    let signatures = overshadowing_signatures(&vec![a, b, c, d, e], &vec![b, d, shaded(9, 1, 6)], 5);
    assert_eq!(signatures, vec![2, 5, 7]);
    assert_eq!(overshadowing_signatures(&vec![a, e], &vec![], 3), Vec::<u32>::new());
    assert_eq!(overshadowing_signatures(&vec![], &vec![a], 5), Vec::<u32>::new());
}

#[test]
fn visibility_of_compares_the_runs_of_the_signature() {
    let own = vec![shaded(2, 3, 1), shaded(2, 1, 9)];
    // nothing carries signature 2
    assert_eq!(visibility_of(&vec![], &own, 2), Visibility::Hidden);
    assert_eq!(visibility_of(&vec![shaded(1, 1, 0), shaded(3, 2, 1)], &own, 2), Visibility::Hidden);
    // all runs of signature 2, wherever they stand, are the own drawing
    assert_eq!(
        visibility_of(&vec![shaded(1, 1, 0), shaded(2, 3, 1), shaded(4, 1, 0), shaded(2, 1, 9)], &own, 2),
        Visibility::Shown
    );
    // a lone triangle is wholly visible
    assert_eq!(visibility_of(&own, &own, 2), Visibility::Shown);
    // only part of the own drawing is left
    assert_eq!(visibility_of(&vec![shaded(2, 3, 1), shaded(4, 1, 0)], &own, 2), Visibility::Partly);
}

#[test]
fn visibility_of_a_sorted_drawing_matches_the_unsorted_one() {
    let drawing = vec![shaded(3, 1, 0), shaded(2, 2, 4), shaded(1, 1, 0), shaded(2, 1, 8)];
    let sorted = sort_by_key(drawing.clone());
    for signature in 0..5 {
        let own = vec![shaded(2, 2, 4), shaded(2, 1, 8)];
        assert_eq!(visibility_of(&drawing, &own, signature), visibility_of(&sorted, &own, signature));
    }
}

#[test]
fn shadow_book_notes_shown_and_hidden_triangles() {
    let mut book = ShadowBook::new();
    book.record(0, Visibility::Shown);
    book.record(1, Visibility::Partly);
    book.record(2, Visibility::Hidden);
    book.record(3, Visibility::Shown);
    assert_eq!(book.fully_lit, vec![0, 3]);
    assert_eq!(book.fully_shadowed, vec![2]);
}

#[test]
fn shadowing_signatures_of_a_partly_covered_triangle() {
    // row 0: triangle 1 from 0 to 3 and triangle 3 from 6 to 9; triangle 2 drawn from 2 to 7
    let full = vec![vec![shaded(1, 4, 0), shaded(3, 4, 6)], vec![shaded(5, 2, 0)]];
    let own = vec![vec![shaded(2, 6, 2)], vec![]];
    let signatures = shadowing_signatures(full.clone(), own.clone(), 2);
    let layered = ShadingOptimisedScreenPoints::layer(full, own).unwrap();
    // triangle 3's run is moved behind triangle 2's run and lengthened, as the sweep does
    assert_eq!(
        layered,
        vec![vec![shaded(1, 2, 0), shaded(2, 6, 2), shaded(3, 14, 8)], vec![shaded(5, 2, 0)]]
    );
    // the only run of the full drawing that stays in place is triangle 5's
    assert_eq!(signatures, vec![5]);
    let own_signature = shadowing_signatures(
        vec![vec![shaded(2, 3, 0), shaded(1, 1, 5)]],
        vec![vec![]],
        2,
    );
    assert_eq!(own_signature, vec![1, 2]);
}

#[test]
fn can_layer_tells_when_the_sweep_finishes() {
    let lower = vec![vec![shaded(0, 1, 10)]];
    assert!(ShadingOptimisedScreenPoints::can_layer(&lower, &vec![vec![shaded(1, 2, 9)]]));
    // the upper row ends before the lower run and has nothing after it
    assert!(!ShadingOptimisedScreenPoints::can_layer(&lower, &vec![vec![shaded(1, 2, 0)]]));
    assert!(!ShadingOptimisedScreenPoints::can_layer(&lower, &vec![]));
    assert!(ShadingOptimisedScreenPoints::can_layer(&lower, &vec![vec![]]));
}
