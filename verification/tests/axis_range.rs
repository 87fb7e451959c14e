use ebpf_studio::axis_range::{AxisRangeEditor, SelectionState};

type Bounds = ([f64; 2], [f64; 2]);

fn bounds() -> Bounds {
    ([1.0, 10.0], [5.0, 50.0])
}

fn state() -> SelectionState<Bounds> {
    SelectionState {
        current_bounds: Some(bounds()),
        zoom_history: Vec::new(),
        auto_bounds: true,
        bounds_command: None,
        axis_range: AxisRangeEditor::default(),
    }
}

#[test]
fn accepted_range_is_shown_and_the_view_remembered() {
    let mut s = state();
    s.apply_axis_range(Ok(([1.0, 20.0], [5.0, 30.0])));
    assert_eq!(s.bounds_command.unwrap().0, [1.0, 20.0]);
    assert!(!s.auto_bounds);
    assert!(s.axis_range.error.is_none());
    assert_eq!(s.zoom_history.pop().unwrap(), bounds());
    s.fit_axis_ranges();
    assert!(s.auto_bounds && s.bounds_command.is_none());
    assert!(!s.axis_range.initialized);
    for _ in 0..50 {
        s.remember_view();
    }
    assert_eq!(s.zoom_history.len(), 32);
}

#[test]
fn rejected_range_leaves_view_and_history() {
    let mut s = state();
    s.apply_axis_range(Err("X: use finite values with Min < Max.".to_string()));
    assert_eq!(s.axis_range.error.as_deref(), Some("X: use finite values with Min < Max."));
    assert!(s.bounds_command.is_none());
    assert!(s.zoom_history.is_empty());
    assert!(s.auto_bounds);
}

#[test]
fn without_a_view_nothing_is_applied_or_remembered() {
    let mut s = state();
    s.current_bounds = None;
    s.apply_axis_range(Ok(bounds()));
    assert!(s.bounds_command.is_none());
    s.remember_view();
    assert!(s.zoom_history.is_empty());
}

#[test]
fn the_oldest_view_leaves_a_full_history() {
    let mut s = state();
    for i in 0..33 {
        s.current_bounds = Some(([i as f64, 0.0], [i as f64 + 1.0, 1.0]));
        s.remember_view();
    }
    assert_eq!(s.zoom_history.len(), 32);
    assert_eq!(s.zoom_history[0].0[0], 1.0);
    assert_eq!(s.zoom_history[31].0[0], 32.0);
}
