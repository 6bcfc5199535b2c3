use loom_cli::prefab_overrides::{
    orphaned_overrides, plan_promotions, prefab_instances, select_overrides, InstanceNode, OverrideRefusal,
    PrefabDecl,
};

fn s(v: &str) -> String {
    v.to_owned()
}

fn scene() -> (Vec<InstanceNode>, Vec<PrefabDecl>) {
    let nodes = vec![
        InstanceNode { path: s("Room"), prefab: None, overrides: vec![] },
        InstanceNode { path: s("Room/A"), prefab: Some(s("lamp")), overrides: vec![] },
        InstanceNode {
            path: s("Room/B"),
            prefab: Some(s("lamp")),
            overrides: vec![s("Bulb::Light.color"), s("Light.intensity")],
        },
        InstanceNode { path: s("Room/C"), prefab: Some(s("chair")), overrides: vec![s("Seat.height")] },
    ];
    let decls = vec![PrefabDecl { key: s("lamp"), path: s("lamp.loom") }];
    (nodes, decls)
}

#[test]
fn naming_no_key_promotes_every_override() {
    let (nodes, decls) = scene();
    let sel = select_overrides(&nodes, &decls, &s("Room/B"), &vec![]).expect("an instance");
    assert_eq!(sel.prefab_file, "lamp.loom");
    assert_eq!(sel.chosen, vec![0, 1]);
    let sel = select_overrides(&nodes, &decls, &s("Room/B"), &vec![s("Light.intensity")]).unwrap();
    assert_eq!(sel.chosen, vec![1]);
}

#[test]
fn each_refusal_says_why() {
    let (nodes, decls) = scene();
    let err = |node: &str, keys: Vec<String>| select_overrides(&nodes, &decls, &s(node), &keys).err();
    assert_eq!(err("Nope", vec![]), Some(OverrideRefusal::UnknownNode));
    assert_eq!(err("Room", vec![]), Some(OverrideRefusal::NotAPrefabInstance));
    assert_eq!(err("Room/C", vec![]), Some(OverrideRefusal::UnresolvedPrefab { alias: s("chair") }));
    assert_eq!(err("Room/A", vec![]), Some(OverrideRefusal::UnknownOverride));
    assert_eq!(err("Room/B", vec![s("Light.range")]), Some(OverrideRefusal::UnknownOverride));
}

#[test]
fn a_key_names_a_node_under_the_prefab_root_and_a_field() {
    let paths = vec![s("Lamp"), s("Lamp/Bulb")];
    let plan = plan_promotions(&paths, &vec![s("Bulb::Light.color"), s("Light.intensity")]).unwrap();
    let got: Vec<(String, String, String)> =
        plan.into_iter().map(|p| (p.key, p.target, p.field)).collect();
    assert_eq!(
        got,
        vec![
            (s("Bulb::Light.color"), s("Lamp/Bulb"), s("Light.color")),
            (s("Light.intensity"), s("Lamp"), s("Light.intensity")),
        ]
    );
}

#[test]
fn an_override_for_a_node_the_prefab_lacks_is_orphaned() {
    let paths = vec![s("Lamp")];
    let refusal = plan_promotions(&paths, &vec![s("Light.intensity"), s("Shade::Mesh.asset")]).err();
    assert_eq!(
        refusal,
        Some(OverrideRefusal::OrphanedOverride { key: s("Shade::Mesh.asset"), target: s("Lamp/Shade") })
    );
    assert_eq!(plan_promotions(&vec![], &vec![s("Light.intensity")]).err(), Some(OverrideRefusal::EmptyPrefab));
    // Only the first `::` splits.
    let paths = vec![s("L"), s("L/a")];
    let plan = plan_promotions(&paths, &vec![s("a::b::c")]).unwrap();
    assert_eq!((plan[0].target.as_str(), plan[0].field.as_str()), ("L/a", "b::c"));
}

#[test]
fn the_prefabs_panel_lists_each_declarations_instances() {
    let (nodes, _) = scene();
    assert_eq!(prefab_instances(&nodes, &s("lamp")), vec![s("Room/A"), s("Room/B")]);
    assert_eq!(prefab_instances(&nodes, &s("chair")), vec![s("Room/C")]);
    assert_eq!(prefab_instances(&nodes, &s("table")), Vec::<String>::new());
}

#[test]
fn an_override_with_no_node_behind_it_is_reported() {
    let paths = vec![s("Room"), s("Room/A"), s("Room/A/Bulb")];
    let targets = vec![s("Room/A/Bulb"), s("Room/A/Shade"), s("Room/Gone")];
    assert_eq!(orphaned_overrides(&targets, &paths), vec![s("Room/A/Shade"), s("Room/Gone")]);
    assert_eq!(orphaned_overrides(&vec![], &paths), Vec::<String>::new());
}
