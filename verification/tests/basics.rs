use rotation_renderer::color::Color;
use rotation_renderer::order::relativ_change;
use rotation_renderer::screen_points::OptimisedScreenPoint;
use rotation_renderer::sorting::sort_by_key;

#[test]
fn color_new_keeps_channels() {
    let c = Color::new(1, 2, 3);
    assert_eq!((c.red, c.green, c.blue), (1, 2, 3));
    assert_eq!(Color::black(), Color::new(0, 0, 0));
    assert_eq!(Color::white(), Color::new(255, 255, 255));
}

#[test]
fn relativ_change_on_integers() {
    assert!(relativ_change(1, 2, 5, 3));
    assert!(!relativ_change(1, 2, 3, 5));
    assert!(!relativ_change(1, 2, 4, 4));
    assert!(relativ_change(2, 2, 0, 9));
    assert!(relativ_change(3, 2, 1, 5));
    assert!(!relativ_change(3, 2, 5, 1));
}

#[test]
fn relativ_change_on_floats() {
    assert!(relativ_change(0.0f32, 1.0, 2.0, 1.5));
    assert!(!relativ_change(0.0f32, 1.0, 1.0, 1.5));
    assert!(relativ_change(f32::NAN, 1.0, 0.0, 1.0));
    assert!(!relativ_change(f32::NAN, 1.0, f32::NAN, 1.0));
}

#[test]
fn sort_by_key_is_stable() {
    let (red, blue, green, white) = (
        Color::new(255, 0, 0),
        Color::new(0, 0, 255),
        Color::new(0, 255, 0),
        Color::white(),
    );
    let runs = vec![
        OptimisedScreenPoint::new(red, 1, 5),
        OptimisedScreenPoint::new(blue, 1, 2),
        OptimisedScreenPoint::new(green, 1, 5),
        OptimisedScreenPoint::new(white, 1, 1),
    ];
    assert_eq!(
        sort_by_key(runs),
        vec![
            OptimisedScreenPoint::new(white, 1, 1),
            OptimisedScreenPoint::new(blue, 1, 2),
            OptimisedScreenPoint::new(red, 1, 5),
            OptimisedScreenPoint::new(green, 1, 5),
        ]
    );
    assert_eq!(sort_by_key(vec![3i64, -1, 2, -1]), vec![-1, -1, 2, 3]);
}
