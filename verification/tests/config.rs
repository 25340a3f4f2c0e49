use hibiki::application::startup::no_ui_requested;
use hibiki::application::typography_service::TypographyService;
use hibiki::domain::config::{
    DisplayMode, Edge, Position, DEFAULT_BUBBLE_TIMEOUT_MS, DEFAULT_DISPLAY_TIMEOUT_MS,
    DEFAULT_MARGIN, DEFAULT_MAX_KEYS,
};

#[test]
fn defaults() {
    assert_eq!(Position::default(), Position::BottomCenter);
    assert_eq!(DisplayMode::default(), DisplayMode::Keystroke);
    assert_eq!(DEFAULT_DISPLAY_TIMEOUT_MS, 2000);
    assert_eq!(DEFAULT_BUBBLE_TIMEOUT_MS, 10000);
    assert_eq!(DEFAULT_MAX_KEYS, 5);
    assert_eq!(DEFAULT_MARGIN, 20);
}

#[test]
fn typography_service_is_created() {
    let _service = TypographyService::new();
    let _default = TypographyService::default();
}

fn anchors(p: Position) -> [bool; 4] {
    let edges = p.layer_shell_edges();
    assert_eq!(
        edges.iter().map(|e| e.0).collect::<Vec<_>>(),
        vec![Edge::Top, Edge::Left, Edge::Bottom, Edge::Right]
    );
    [edges[0].1, edges[1].1, edges[2].1, edges[3].1]
}

#[test]
fn layer_shell_edges_for_every_position() {
    assert_eq!(anchors(Position::TopLeft), [true, true, false, false]);
    assert_eq!(anchors(Position::TopCenter), [true, false, false, false]);
    assert_eq!(anchors(Position::TopRight), [true, false, false, true]);
    assert_eq!(anchors(Position::MiddleLeft), [false, true, false, false]);
    assert_eq!(anchors(Position::Center), [false, false, false, false]);
    assert_eq!(anchors(Position::MiddleRight), [false, false, false, true]);
    assert_eq!(anchors(Position::BottomLeft), [false, true, true, false]);
    assert_eq!(anchors(Position::BottomCenter), [false, false, true, false]);
    assert_eq!(anchors(Position::BottomRight), [false, false, true, true]);
}

#[test]
fn no_position_anchors_opposite_edges() {
    let all = [
        Position::TopLeft,
        Position::TopCenter,
        Position::TopRight,
        Position::MiddleLeft,
        Position::Center,
        Position::MiddleRight,
        Position::BottomLeft,
        Position::BottomCenter,
        Position::BottomRight,
    ];
    for (i, p) in all.iter().enumerate() {
        let a = anchors(*p);
        assert!(!(a[0] && a[2]));
        assert!(!(a[1] && a[3]));
        for q in all.iter().skip(i + 1) {
            assert_ne!(a, anchors(*q));
        }
    }
}

fn args(list: &[&str]) -> Vec<String> {
    list.iter().map(|s| s.to_string()).collect()
}

#[test]
fn no_ui_flag() {
    assert!(no_ui_requested(&args(&["hibiki", "--no-ui"])));
    assert!(no_ui_requested(&args(&["hibiki", "-n", "x"])));
    assert!(!no_ui_requested(&args(&["hibiki"])));
    assert!(!no_ui_requested(&args(&["hibiki", "--no-uix", "-nn", "--n"])));
    assert!(!no_ui_requested(&args(&[])));
}
