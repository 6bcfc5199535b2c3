use loom_cli::prefab_cmd::{
    applied_label, operation_label, parse_verb, prefab_request, revert_request, splice_label, PrefabRequest, PrefabVerb,
};

#[test]
fn the_three_verbs_are_recognised() {
    assert_eq!(parse_verb("unpack"), Some(PrefabVerb::Unpack));
    assert_eq!(parse_verb("revert-overrides"), Some(PrefabVerb::RevertOverrides));
    assert_eq!(parse_verb("apply-overrides"), Some(PrefabVerb::ApplyOverrides));
    assert_eq!(parse_verb("apply"), None);
    assert_eq!(parse_verb("Unpack"), None);
}

#[test]
fn a_missing_verb_or_scene_is_a_usage_error() {
    assert_eq!(prefab_request(None, true, true), PrefabRequest::Usage);
    assert_eq!(prefab_request(Some("unpack"), false, true), PrefabRequest::Usage);
    assert_eq!(prefab_request(None, false, false), PrefabRequest::Usage);
}

#[test]
fn a_missing_node_is_reported_before_an_unknown_verb() {
    assert_eq!(prefab_request(Some("unpack"), true, false), PrefabRequest::MissingNode);
    assert_eq!(prefab_request(Some("explode"), true, false), PrefabRequest::MissingNode);
    assert_eq!(prefab_request(Some("explode"), true, true), PrefabRequest::Usage);
}

#[test]
fn a_complete_command_line_runs_its_verb() {
    assert_eq!(
        prefab_request(Some("apply-overrides"), true, true),
        PrefabRequest::Run(PrefabVerb::ApplyOverrides)
    );
    assert_eq!(
        prefab_request(Some("revert-overrides"), true, true),
        PrefabRequest::Run(PrefabVerb::RevertOverrides)
    );
}

#[test]
fn undo_labels_name_what_happened_and_where() {
    assert_eq!(operation_label(PrefabVerb::Unpack, "Room/A"), "Unpack Room/A");
    assert_eq!(operation_label(PrefabVerb::RevertOverrides, "Room/A"), "Revert overrides on Room/A");
    assert_eq!(operation_label(PrefabVerb::ApplyOverrides, "Room/B"), "Apply overrides from Room/B");
    assert_eq!(applied_label("Room/B"), "Applied overrides on Room/B");
}

#[test]
fn editor_undo_labels_say_what_was_edited() {
    assert_eq!(splice_label("Room/A", "Path.points"), "Splice Room/A Path.points");
    assert_eq!(
        revert_request("Room/B", "Light.intensity"),
        ("Revert Room/B Light.intensity".to_string(), vec!["Light.intensity".to_string()])
    );
    assert_eq!(revert_request("Room/B", ""), ("Revert Room/B all overrides".to_string(), Vec::<String>::new()));
}
