use loom_cli::scene_file::{replace_scene_id, scene_id_for};

#[test]
fn saving_as_gives_the_copy_its_own_id() {
    let original = "[scene]\nformat = 1\nid = \"aaaaaaaa-0000-4000-8000-000000000000\"\n\n\
         # a comment the human wrote\n[[node]]\nname = \"Root\"\n";
    let copy = replace_scene_id(original, "bbbbbbbb-1111-4111-8111-111111111111");
    assert!(copy.contains("bbbbbbbb-1111-4111-8111-111111111111"), "{copy}");
    assert!(!copy.contains("aaaaaaaa"), "the old id must be gone: {copy}");
    assert!(
        copy.contains("# a comment the human wrote"),
        "the rest of the file survives: {copy}"
    );
}

#[test]
fn a_scene_without_an_id_gains_one() {
    let original = "[scene]\nformat = 1\n\n[[node]]\nname = \"Root\"\n";
    let copy = replace_scene_id(original, "cccccccc-2222-4222-8222-222222222222");
    assert!(copy.contains("cccccccc-2222"), "{copy}");
}

#[test]
fn only_the_scene_table_is_touched() {
    let original = "[scene]\nformat = 1\nid = \"aaaaaaaa-0000-4000-8000-000000000000\"\n\n\
         [[prefab]]\nkey = \"crate\"\nid = \"7a41c0de-5b2e-4f18-9d63-2c8ae5f10b47\"\n\
         path = \"../p/crate.loom\"\n";
    let copy = replace_scene_id(original, "dddddddd-3333-4333-8333-333333333333");
    assert!(copy.contains("dddddddd-3333"), "{copy}");
    assert!(
        copy.contains("7a41c0de-5b2e-4f18-9d63-2c8ae5f10b47"),
        "the prefab's id is not the scene's: {copy}"
    );
}

#[test]
fn a_scene_id_is_uuid_shaped_and_stable() {
    let a = scene_id_for("/a/one.loom");
    let b = scene_id_for("/a/two.loom");
    assert_ne!(a, b, "different files, different ids");
    assert_eq!(a, scene_id_for("/a/one.loom"));
    let parts: Vec<&str> = a.split('-').collect();
    assert_eq!(parts.len(), 5, "{a}");
    assert_eq!(parts.iter().map(|p| p.len()).collect::<Vec<_>>(), vec![8, 4, 4, 4, 12], "{a}");
    assert!(a.chars().all(|c| c.is_ascii_hexdigit() || c == '-'), "{a}");
}

/// The same hash and layout written out by hand, for one path.
fn reference_id(path: &str) -> String {
    let mut hash: u64 = 0xcbf2_9ce4_8422_2325;
    for byte in path.as_bytes() {
        hash ^= u64::from(*byte);
        hash = hash.wrapping_mul(0x0100_0000_01b3);
    }
    let a = hash;
    let b = hash.rotate_left(17).wrapping_mul(0x9e37_79b9_7f4a_7c15);
    format!(
        "{:08x}-{:04x}-4{:03x}-8{:03x}-{:012x}",
        (a >> 32) as u32,
        (a >> 16) as u16,
        (a & 0x0fff) as u16,
        (b >> 52) as u16 & 0x0fff,
        b & 0xffff_ffff_ffff,
    )
}

#[test]
fn a_scene_id_is_the_hash_of_its_path() {
    for path in ["", "/tmp/loom-new-scene-test/untitled.loom", "/a/one.loom", "C:\\scenes\\é.loom"] {
        assert_eq!(scene_id_for(path), reference_id(path), "{path}");
    }
    let id = scene_id_for("/a/one.loom");
    assert_eq!(&id[14..15], "4");
    assert_eq!(&id[19..20], "8");
}

#[test]
fn an_id_is_replaced_in_place() {
    let text = "# header\n[scene]\nformat = 1\nid = \"old\"\n\n[[node]]\nname = \"Root\"\n";
    assert_eq!(
        replace_scene_id(text, "new"),
        "# header\n[scene]\nformat = 1\nid = \"new\"\n\n[[node]]\nname = \"Root\"\n"
    );
}

#[test]
fn a_missing_id_goes_at_the_end_of_the_scene_table() {
    let text = "[scene]\nformat = 1\n[[node]]\nname = \"Root\"";
    assert_eq!(
        replace_scene_id(text, "x"),
        "[scene]\nformat = 1\nid = \"x\"\n[[node]]\nname = \"Root\""
    );
    // A file that is only the scene table gets the id at its end.
    assert_eq!(replace_scene_id("[scene]\nformat = 1\n", "x"), "[scene]\nformat = 1\nid = \"x\"\n");
}

#[test]
fn a_file_without_a_scene_table_keeps_its_lines() {
    assert_eq!(replace_scene_id("", "x"), "");
    assert_eq!(replace_scene_id("[[node]]\nid = 3\r\n", "x"), "[[node]]\nid = 3\r\n");
    assert_eq!(replace_scene_id("a\n\nb", "x"), "a\n\nb");
}

#[test]
fn a_key_that_only_starts_with_id_is_left_alone() {
    let text = "  [scene]\n  identity = 4\n  id = \"b\"\n";
    assert_eq!(replace_scene_id(text, "n"), "  [scene]\n  identity = 4\nid = \"n\"\n");
}

#[test]
fn a_saved_copy_gets_the_loom_extension_once() {
    assert_eq!(loom_cli::scene_file::loom_file_name("harbour"), "harbour.loom");
    assert_eq!(loom_cli::scene_file::loom_file_name("harbour.loom"), "harbour.loom");
    assert_eq!(loom_cli::scene_file::loom_file_name("harbour.loo"), "harbour.loo.loom");
    assert_eq!(loom_cli::scene_file::loom_file_name(""), ".loom");
    assert_eq!(loom_cli::scene_file::loom_file_name(".loom"), ".loom");
}

#[test]
fn line_endings_survive_the_id_swap() {
    let crlf = "[scene]\r\nformat = 1\r\nid = \"a\"\r\n";
    assert_eq!(replace_scene_id(crlf, "b"), "[scene]\r\nformat = 1\r\nid = \"b\"\r\n");
    assert_eq!(replace_scene_id("a\r\n", "b"), "a\r\n");
    assert_eq!(replace_scene_id("[scene]\r\nformat = 1\r\n", "b"), "[scene]\r\nformat = 1\r\nid = \"b\"\r\n");
    assert_eq!(replace_scene_id("[scene]\nformat = 1", "b"), "[scene]\nformat = 1\nid = \"b\"\n");
    assert_eq!(replace_scene_id("", "b"), "");
}

#[test]
fn only_the_key_id_is_the_scene_id() {
    let text = "[scene]\nidle = 1\nid = \"a\"\n";
    assert_eq!(replace_scene_id(text, "b"), "[scene]\nidle = 1\nid = \"b\"\n");
    let spaced = "[scene]\n  id  =\"a\"\n";
    assert_eq!(replace_scene_id(spaced, "b"), "[scene]\nid = \"b\"\n");
}

#[test]
fn a_table_without_an_id_gains_one_before_the_next_table() {
    let text = "[scene]\nformat = 1\n[[node]]\nname = \"Root\"\n";
    assert_eq!(
        replace_scene_id(text, "b"),
        "[scene]\nformat = 1\nid = \"b\"\n[[node]]\nname = \"Root\"\n"
    );
}

#[test]
fn a_copy_of_a_copy_differs_only_in_its_id() {
    for text in [
        "[scene]\nformat = 1\nid = \"a\"\n[[node]]\nname = \"Root\"\n",
        "[scene]\nformat = 1\n[[node]]\nname = \"Root\"\n",
        "[scene]\nformat = 1",
        "# no table\n",
    ] {
        let once = replace_scene_id(text, "second");
        let twice = replace_scene_id(&replace_scene_id(text, "first"), "second");
        assert_eq!(twice, once, "{text:?}");
    }
}

#[test]
fn a_new_scene_is_a_scene() {
    let id = scene_id_for("/tmp/loom-new-scene-test/untitled.loom");
    let text = loom_cli::scene_file::blank_scene(&id);
    assert_eq!(text.matches("[[node]]").count(), 1);
    assert!(text.contains(&format!("[scene]\nformat = 1\nid = \"{id}\"\n")), "{text}");
    assert_eq!(replace_scene_id(&text, "other"), loom_cli::scene_file::blank_scene("other"));
}
