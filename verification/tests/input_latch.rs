use loom_cli::input_latch::{ui_pressed, Buttons, InputLatch};

fn buttons() -> Buttons {
    Buttons { jump: false, sprint: false, fire: false, interact: false, bag: false, ui: 0 }
}

#[test]
fn a_jump_press_survives_until_a_tick_consumes_it() {
    let mut latch = InputLatch::new();
    latch.set_input(Buttons { jump: true, ..buttons() });
    // The key went up before any tick ran.
    latch.set_input(buttons());
    latch.set_input(buttons());
    assert!(latch.take().jump, "the jump was dropped");
    assert!(!latch.take().jump, "one press is one jump");
}

#[test]
fn holding_interact_is_one_press() {
    let mut latch = InputLatch::new();
    let mut pressed = 0;
    for _ in 0..60 {
        latch.set_input(Buttons { interact: true, ..buttons() });
        if latch.take().interact {
            pressed += 1;
        }
    }
    assert_eq!(pressed, 1, "a second of holding E was {pressed} interactions");
    latch.set_input(buttons());
    latch.set_input(Buttons { interact: true, ..buttons() });
    assert!(latch.take().interact, "a second press did not register");
}

#[test]
fn holding_the_bag_key_and_a_menu_button_is_one_press_each() {
    let mut latch = InputLatch::new();
    let mut bags = 0;
    let mut clicks = 0;
    for _ in 0..30 {
        latch.set_input(Buttons { bag: true, ui: 3, ..buttons() });
        let p = latch.take();
        bags += usize::from(p.bag);
        clicks += usize::from(p.ui == 3);
    }
    assert_eq!((bags, clicks), (1, 1));
    // Moving to another button is a new press.
    latch.set_input(Buttons { ui: 2, ..buttons() });
    assert_eq!(latch.take().ui, 2);
}

#[test]
fn sprint_is_held_not_pressed() {
    let mut latch = InputLatch::new();
    latch.set_input(Buttons { sprint: true, fire: true, ..buttons() });
    let first = latch.take();
    assert!(first.sprint && first.fire);
    let second = latch.take();
    assert!(second.sprint && !second.fire);
    assert!(latch.held().sprint);
}

#[test]
fn a_held_menu_button_raises_one_ui_press() {
    let mut was = 0;
    let mut raised = 0;
    for _ in 0..15 {
        if ui_pressed(was, 4) {
            raised += 1;
        }
        was = 4;
    }
    assert_eq!(raised, 1, "a fifteen-tick hold raised {raised} presses");
    assert!(!ui_pressed(4, 0));
    assert!(ui_pressed(4, 5));
}

#[test]
fn a_run_takes_one_press_from_a_held_button() {
    let mut edge = loom_cli::input_latch::ButtonEdge::new();
    assert!(!edge.tick(0));
    assert!(edge.tick(2));
    assert!(!edge.tick(2));
    assert!(!edge.tick(2));
    assert!(edge.tick(3));
    assert!(!edge.tick(0));
    assert!(edge.tick(3));
}
