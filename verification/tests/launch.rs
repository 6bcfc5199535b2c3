use loom_cli::launch::{launch, opening_selection, tool_named, Launch, Tool};

#[test]
fn the_mode_word_picks_the_tool_whatever_its_case() {
    assert_eq!(tool_named("rotate"), Tool::Rotate);
    assert_eq!(tool_named("ROTATE"), Tool::Rotate);
    assert_eq!(tool_named("Scale"), Tool::Scale);
    assert_eq!(tool_named("move"), Tool::Move);
    assert_eq!(tool_named("spin"), Tool::Move);
    assert_eq!(tool_named(""), Tool::Move);
}

#[test]
fn a_zero_frame_budget_is_no_budget() {
    assert_eq!(launch(Some(0), false, false, false, false).frames_left, None);
    assert_eq!(launch(Some(3), false, false, false, false).frames_left, Some(3));
    assert_eq!(launch(None, false, false, false, false).frames_left, None);
}

#[test]
fn play_with_a_title_camera_opens_the_title_screen_instead_of_autoplay() {
    assert_eq!(
        launch(None, true, false, false, true),
        Launch { frames_left: None, front: true, autoplay: false }
    );
}

#[test]
fn play_without_a_title_camera_autoplays() {
    assert_eq!(
        launch(None, true, false, false, false),
        Launch { frames_left: None, front: false, autoplay: true }
    );
}

#[test]
fn the_title_screen_never_opens_over_the_editor_or_under_a_script() {
    assert_eq!(launch(None, true, false, true, true), Launch { frames_left: None, front: false, autoplay: true });
    assert_eq!(launch(None, true, true, false, true), Launch { frames_left: None, front: false, autoplay: true });
    assert_eq!(launch(None, false, false, false, true), Launch { frames_left: None, front: false, autoplay: false });
}

#[test]
fn the_asked_for_node_is_selected_and_otherwise_the_first() {
    let paths: Vec<String> = vec!["Root".into(), "Root/Boat".into()];
    assert_eq!(opening_selection(&Some("Root/Boat".into()), &paths), vec!["Root/Boat".to_string()]);
    assert_eq!(opening_selection(&Some("Root/Car".into()), &paths), vec!["Root".to_string()]);
    assert_eq!(opening_selection(&None, &paths), vec!["Root".to_string()]);
    assert_eq!(opening_selection(&None, &Vec::new()), Vec::<String>::new());
    assert_eq!(opening_selection(&Some("Root".into()), &Vec::new()), Vec::<String>::new());
}
