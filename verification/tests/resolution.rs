use mouse_actions::binding::{Binding, Config};
use mouse_actions::compare_angles::compare_angles_with_offset;
use mouse_actions::event::{Button, ClickEvent, Edge, Modifier, PressState};
use mouse_actions::process_event::{find_candidates, resolve_event, EventAction};

fn mk_event(
    button: Button,
    event_type: PressState,
    edges: Vec<Edge>,
    modifiers: Vec<Modifier>,
    shape: Vec<u64>,
) -> ClickEvent {
    ClickEvent { button, event_type, edges, modifiers, shape }
}

fn mk_binding(event: ClickEvent, cmd: &[&str]) -> Binding {
    Binding {
        event,
        cmd: cmd.iter().map(|s| s.to_string()).collect(),
        comment: String::new(),
    }
}

fn square() -> Vec<u64> {
    vec![
        0, 0, 0, 90_000, 90_000, 90_000, 180_000, 180_000, 180_000, 270_000, 270_000, 270_000,
    ]
}

fn triangle() -> Vec<u64> {
    vec![
        0, 0, 0, 0, 120_000, 120_000, 120_000, 120_000, 240_000, 240_000, 240_000, 240_000,
    ]
}

fn run_cmd_of(action: &EventAction) -> Option<Vec<String>> {
    match action {
        EventAction::RunCommand(cmd) => Some(cmd.clone()),
        _ => None,
    }
}

#[test]
fn scenario_press_binding_launches_command() {
    let config = Config {
        bindings: vec![mk_binding(
            mk_event(Button::Left, PressState::Press, vec![], vec![], vec![]),
            &["echo", "hi"],
        )],
        shape_button: Button::Right,
    };
    let event = mk_event(Button::Left, PressState::Press, vec![], vec![], vec![]);
    let r = resolve_event(&config, &event);
    assert_eq!(r.winner, Some(0));
    assert!(!r.propagate);
    assert_eq!(run_cmd_of(&r.action), Some(vec!["echo".to_string(), "hi".to_string()]));
    assert!(!r.no_shape_ambiguity);
}

#[test]
fn scenario_square_shape_beats_triangle() {
    let traced = square();
    assert_eq!(compare_angles_with_offset(&traced, &square()), 0);
    assert_eq!(compare_angles_with_offset(&traced, &triangle()), 194);
    let config = Config {
        bindings: vec![
            mk_binding(
                mk_event(Button::Left, PressState::Release, vec![], vec![], square()),
                &["open", "square"],
            ),
            mk_binding(
                mk_event(Button::Left, PressState::Release, vec![], vec![], triangle()),
                &["open", "triangle"],
            ),
        ],
        shape_button: Button::Left,
    };
    let event = mk_event(Button::Left, PressState::Release, vec![], vec![], traced);
    let r = resolve_event(&config, &event);
    assert_eq!(r.winner, Some(0));
    assert!(!r.propagate);
    assert_eq!(
        run_cmd_of(&r.action),
        Some(vec!["open".to_string(), "square".to_string()])
    );
}

#[test]
fn scenario_close_scores_pick_nobody_and_replay_click() {
    let traced: Vec<u64> = vec![0; 12];
    assert_eq!(compare_angles_with_offset(&traced, &vec![99_000; 12]), 550);
    assert_eq!(compare_angles_with_offset(&traced, &vec![100_000; 12]), 555);
    let config = Config {
        bindings: vec![
            mk_binding(
                mk_event(Button::Left, PressState::Release, vec![], vec![], vec![99_000; 12]),
                &["open", "square"],
            ),
            mk_binding(
                mk_event(Button::Left, PressState::Release, vec![], vec![], vec![100_000; 12]),
                &["open", "triangle"],
            ),
        ],
        shape_button: Button::Left,
    };
    let event = mk_event(Button::Left, PressState::Release, vec![], vec![], traced);
    let r = resolve_event(&config, &event);
    assert_eq!(r.winner, None);
    assert!(!r.propagate);
    assert!(matches!(r.action, EventAction::SynthesizeClick(Button::Left)));
}

#[test]
fn short_trace_falls_back_to_no_shape_path() {
    // ten samples match a pattern perfectly, but ten is not strictly above
    // the minimum, so the shape path refuses and the pattern-free binding
    // wins instead
    let traced: Vec<u64> = vec![0; 10];
    let config = Config {
        bindings: vec![
            mk_binding(
                mk_event(Button::Left, PressState::Release, vec![], vec![], vec![0; 10]),
                &["shape"],
            ),
            mk_binding(
                mk_event(Button::Left, PressState::Release, vec![], vec![], vec![]),
                &["plain"],
            ),
        ],
        shape_button: Button::Left,
    };
    let event = mk_event(Button::Left, PressState::Release, vec![], vec![], traced);
    let r = resolve_event(&config, &event);
    assert_eq!(r.winner, Some(1));
    assert_eq!(run_cmd_of(&r.action), Some(vec!["plain".to_string()]));
}

#[test]
fn score_at_threshold_blocks_lone_shape_candidate() {
    let traced: Vec<u64> = vec![0; 12];
    assert_eq!(compare_angles_with_offset(&traced, &vec![150_000; 12]), 833);
    let config = Config {
        bindings: vec![mk_binding(
            mk_event(Button::Left, PressState::Release, vec![], vec![], vec![150_000; 12]),
            &["far"],
        )],
        shape_button: Button::Left,
    };
    let event = mk_event(Button::Left, PressState::Release, vec![], vec![], traced);
    let r = resolve_event(&config, &event);
    assert_eq!(r.winner, None);
    assert!(matches!(r.action, EventAction::SynthesizeClick(Button::Left)));
}

#[test]
fn zero_no_shape_candidates_no_winner() {
    let config = Config {
        bindings: vec![mk_binding(
            mk_event(Button::Right, PressState::Press, vec![], vec![], vec![]),
            &["other"],
        )],
        shape_button: Button::Right,
    };
    let event = mk_event(Button::Left, PressState::Press, vec![], vec![], vec![]);
    let r = resolve_event(&config, &event);
    assert_eq!(r.winner, None);
    assert!(r.propagate);
    assert!(matches!(r.action, EventAction::NoAction));
    assert!(!r.no_shape_ambiguity);
}

#[test]
fn two_no_shape_candidates_warn_and_pick_nobody() {
    let config = Config {
        bindings: vec![
            mk_binding(
                mk_event(Button::Left, PressState::Press, vec![], vec![], vec![]),
                &["first"],
            ),
            mk_binding(
                mk_event(Button::Left, PressState::Click, vec![], vec![], vec![]),
                &["second"],
            ),
        ],
        shape_button: Button::Right,
    };
    let event = mk_event(Button::Left, PressState::Press, vec![], vec![], vec![]);
    let r = resolve_event(&config, &event);
    assert_eq!(r.winner, None);
    assert!(r.propagate);
    assert!(matches!(r.action, EventAction::NoAction));
    assert!(r.no_shape_ambiguity);
}

#[test]
fn click_binding_fires_once_per_cycle() {
    let config = Config {
        bindings: vec![mk_binding(
            mk_event(Button::Left, PressState::Click, vec![], vec![], vec![]),
            &["toggle"],
        )],
        shape_button: Button::Right,
    };
    let press = mk_event(Button::Left, PressState::Press, vec![], vec![], vec![]);
    let r1 = resolve_event(&config, &press);
    assert_eq!(r1.winner, Some(0));
    assert!(!r1.propagate);
    assert_eq!(run_cmd_of(&r1.action), Some(vec!["toggle".to_string()]));
    // the release leg still wins and is swallowed, but the command must
    // not fire a second time
    let release = mk_event(Button::Left, PressState::Release, vec![], vec![], vec![]);
    let r2 = resolve_event(&config, &release);
    assert_eq!(r2.winner, Some(0));
    assert!(!r2.propagate);
    assert!(matches!(r2.action, EventAction::NoAction));
}

#[test]
fn unclaimed_shape_button_release_replays_click() {
    let config = Config { bindings: vec![], shape_button: Button::Left };
    let event = mk_event(Button::Left, PressState::Release, vec![], vec![], vec![]);
    let r = resolve_event(&config, &event);
    assert_eq!(r.winner, None);
    assert!(!r.propagate);
    assert!(matches!(r.action, EventAction::SynthesizeClick(Button::Left)));
}

#[test]
fn candidate_filter_ignores_declaration_order() {
    let shape_binding = mk_binding(
        mk_event(Button::Left, PressState::Release, vec![], vec![], square()),
        &["shape"],
    );
    let plain_binding = mk_binding(
        mk_event(Button::Left, PressState::Release, vec![], vec![], vec![]),
        &["plain"],
    );
    let c1 = Config {
        bindings: vec![shape_binding.clone(), plain_binding.clone()],
        shape_button: Button::Left,
    };
    let c2 = Config {
        bindings: vec![plain_binding, shape_binding],
        shape_button: Button::Left,
    };
    let event = mk_event(Button::Left, PressState::Release, vec![], vec![], square());
    let k1 = find_candidates(&c1, &event);
    let k2 = find_candidates(&c2, &event);
    assert_eq!(k1.len(), 2);
    assert_eq!(k2.len(), 2);
    let mut set1: Vec<Vec<String>> =
        k1.iter().map(|&i| c1.bindings[i].cmd.clone()).collect();
    let mut set2: Vec<Vec<String>> =
        k2.iter().map(|&i| c2.bindings[i].cmd.clone()).collect();
    set1.sort();
    set2.sort();
    assert_eq!(set1, set2);
}

#[test]
fn shape_binding_needs_shape_button_and_no_press() {
    let shape_binding = mk_binding(
        mk_event(Button::Left, PressState::Click, vec![], vec![], square()),
        &["shape"],
    );
    let config = Config { bindings: vec![shape_binding], shape_button: Button::Left };
    // a press can never carry a complete gesture
    let press = mk_event(Button::Left, PressState::Press, vec![], vec![], vec![]);
    assert_eq!(find_candidates(&config, &press).len(), 0);
    // on release of the shape button the binding is eligible
    let release = mk_event(Button::Left, PressState::Release, vec![], vec![], square());
    assert_eq!(find_candidates(&config, &release), vec![0]);
    // on another shape button the gesture binding never applies
    let other = Config { bindings: config.bindings.clone(), shape_button: Button::Right };
    assert_eq!(find_candidates(&other, &release).len(), 0);
}

#[test]
fn edges_and_modifiers_compare_as_sets() {
    let binding = mk_binding(
        mk_event(
            Button::Left,
            PressState::Press,
            vec![Edge::Top, Edge::Left],
            vec![Modifier::ControlLeft, Modifier::ShiftLeft],
            vec![],
        ),
        &["corner"],
    );
    let config = Config { bindings: vec![binding], shape_button: Button::Right };
    let reordered = mk_event(
        Button::Left,
        PressState::Press,
        vec![Edge::Left, Edge::Top],
        vec![Modifier::ShiftLeft, Modifier::ControlLeft],
        vec![],
    );
    assert_eq!(find_candidates(&config, &reordered), vec![0]);
    let missing_edge = mk_event(
        Button::Left,
        PressState::Press,
        vec![Edge::Top],
        vec![Modifier::ShiftLeft, Modifier::ControlLeft],
        vec![],
    );
    assert_eq!(find_candidates(&config, &missing_edge).len(), 0);
}
