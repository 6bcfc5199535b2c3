use loom_cli::escape::{escape_means, front_end_wanted, Escape};

#[test]
fn escape_pauses_while_playing_and_closes_otherwise() {
    for (state, want) in [
        ((false, true, true), Escape::Pause),
        ((true, true, true), Escape::Resume),
        ((true, false, false), Escape::Resume),
        ((false, false, false), Escape::Close),
        ((false, true, false), Escape::Close),
    ] {
        let (menu_open, playing, captured) = state;
        assert_eq!(escape_means(menu_open, playing, captured), want, "escape_means{state:?}");
    }
}

#[test]
fn a_front_end_goes_in_front_of_a_game_and_never_in_front_of_the_editor() {
    for (state, want) in [
        ((true, false), true),
        ((true, true), false),
        ((false, true), false),
        ((false, false), false),
    ] {
        let (autoplay, editing) = state;
        assert_eq!(front_end_wanted(autoplay, editing), want, "front_end_wanted{state:?}");
    }
}

#[test]
fn two_escapes_while_driving_pause_and_resume_rather_than_quitting() {
    let mut menu = false;
    let mut seen = Vec::new();
    for _ in 0..4 {
        let action = escape_means(menu, true, true);
        seen.push(action);
        match action {
            Escape::Pause => menu = true,
            Escape::Resume => menu = false,
            Escape::Close => break,
        }
    }
    assert_eq!(
        seen,
        [Escape::Pause, Escape::Resume, Escape::Pause, Escape::Resume],
        "Escape closed the window from inside a game"
    );
}

#[test]
fn an_open_menu_resumes_whatever_else_is_true() {
    for playing in [false, true] {
        for captured in [false, true] {
            assert_eq!(escape_means(true, playing, captured), Escape::Resume);
        }
    }
}
