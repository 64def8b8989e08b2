use juju_tree::registry::{Controller, ControllerModels, Controllers, Model, ModelType, Models};
use juju_tree::render::{render_tree, sorted_order};
use juju_tree::text::{compare_text, label_less, strip_markers};
use juju_tree::tree::{
    controller_label_text, model_label_text, ControllerBranch, JujuArtifacts, JujuTree,
    ModelBranch, TreeError,
};

fn s(x: &str) -> String {
    x.to_string()
}

fn controller(version: &str, kind: &str) -> Controller {
    Controller {
        cloud: s("aws"),
        region: s("us-east-1"),
        type_: s(kind),
        agent_version: s(version),
    }
}

fn iaas(uuid: &str) -> ModelType {
    ModelType::Iaas(Model { uuid: s(uuid), branch: s("main") })
}

fn group(names: &[&str], current: &str) -> ControllerModels {
    ControllerModels {
        models: names.iter().map(|n| (s(n), iaas("u"))).collect(),
        current_model: s(current),
    }
}

fn build_and_render(cs: &Controllers, ms: &Models) -> String {
    let tree = JujuArtifacts::get_tree(cs, ms).unwrap();
    render_tree(&tree)
}

#[test]
fn scenario_single_active_controller() {
    let cs = Controllers {
        controllers: vec![(s("foo"), controller("3.1.0", "iaas"))],
        current_controller: s("foo"),
    };
    let ms = Models {
        controllers: vec![(
            s("foo"),
            ControllerModels {
                models: vec![(s("default"), iaas("u1"))],
                current_model: s("default"),
            },
        )],
    };
    assert_eq!(build_and_render(&cs, &ms), "* foo (3.1.0, iaas)\n    * default\n");
}

#[test]
fn scenario_active_marker_does_not_move_controller() {
    let cs = Controllers {
        controllers: vec![
            (s("zulu"), controller("3.1.0", "iaas")),
            (s("alpha"), controller("2.9.0", "caas")),
        ],
        current_controller: s("zulu"),
    };
    let ms = Models {
        controllers: vec![(s("alpha"), group(&["m1"], "")), (s("zulu"), group(&["m1"], ""))],
    };
    let out = build_and_render(&cs, &ms);
    assert_eq!(
        out,
        "  alpha (2.9.0, caas)\n      m1\n* zulu (3.1.0, iaas)\n      m1\n"
    );
    let alpha = out.find("alpha").unwrap();
    let zulu = out.find("zulu").unwrap();
    assert!(alpha < zulu);
}

#[test]
fn scenario_active_marker_does_not_move_model() {
    let cs = Controllers {
        controllers: vec![(s("c"), controller("1.0", "iaas"))],
        current_controller: s(""),
    };
    let ms = Models { controllers: vec![(s("c"), group(&["b-model", "a-model"], "b-model"))] };
    assert_eq!(
        build_and_render(&cs, &ms),
        "  c (1.0, iaas)\n      a-model\n    * b-model\n"
    );
}

#[test]
fn missing_model_group_is_a_consistency_fault() {
    let cs = Controllers {
        controllers: vec![
            (s("a"), controller("1.0", "iaas")),
            (s("b"), controller("1.0", "iaas")),
        ],
        current_controller: s("a"),
    };
    let ms = Models { controllers: vec![(s("a"), group(&["m"], "m"))] };
    match JujuArtifacts::get_tree(&cs, &ms) {
        Err(TreeError::ConsistencyFault(name)) => assert_eq!(name, "b"),
        Ok(_) => panic!("a tree was built without the models of controller b"),
    }
}

#[test]
fn shuffled_registries_render_the_same() {
    let cs1 = Controllers {
        controllers: vec![
            (s("k8s"), controller("3.4.0", "caas")),
            (s("lxd"), controller("3.3.1", "iaas")),
            (s("aws"), controller("3.1.0", "iaas")),
        ],
        current_controller: s("lxd"),
    };
    let cs2 = Controllers {
        controllers: vec![
            (s("aws"), controller("3.1.0", "iaas")),
            (s("lxd"), controller("3.3.1", "iaas")),
            (s("k8s"), controller("3.4.0", "caas")),
        ],
        current_controller: s("lxd"),
    };
    let ms1 = Models {
        controllers: vec![
            (s("aws"), group(&["prod", "dev"], "dev")),
            (s("k8s"), group(&["welcome", "controller", "cos"], "cos")),
            (s("lxd"), group(&["default"], "")),
        ],
    };
    let ms2 = Models {
        controllers: vec![
            (s("lxd"), group(&["default"], "")),
            (s("aws"), group(&["dev", "prod"], "dev")),
            (s("k8s"), group(&["cos", "welcome", "controller"], "cos")),
        ],
    };
    let out1 = build_and_render(&cs1, &ms1);
    let out2 = build_and_render(&cs2, &ms2);
    assert_eq!(out1, out2);
    assert_eq!(
        out1,
        "  aws (3.1.0, iaas)\n    * dev\n      prod\n  k8s (3.4.0, caas)\n      controller\n    * cos\n      welcome\n* lxd (3.3.1, iaas)\n      default\n"
    );
}

#[test]
fn rendering_twice_gives_the_same_bytes() {
    let cs = Controllers {
        controllers: vec![
            (s("b"), controller("1.0", "iaas")),
            (s("a"), controller("2.0", "caas")),
        ],
        current_controller: s("b"),
    };
    let ms = Models {
        controllers: vec![(s("a"), group(&["x", "y"], "y")), (s("b"), group(&["z"], "z"))],
    };
    let tree = JujuArtifacts::get_tree(&cs, &ms).unwrap();
    let first = render_tree(&tree);
    let second = render_tree(&tree);
    assert_eq!(first, second);
    assert_eq!(first, "  a (2.0, caas)\n      x\n    * y\n* b (1.0, iaas)\n    * z\n");
}

#[test]
fn markers_do_not_change_relative_order() {
    assert!(label_less(&s("* apple"), &s("  banana")));
    assert!(!label_less(&s("  banana"), &s("* apple")));
    assert!(label_less(&s("  apple"), &s("* banana")));
    assert!(!label_less(&s("* banana"), &s("  apple")));
}

#[test]
fn equal_sort_keys_fall_back_to_the_whole_label() {
    // "  x" and "* x" share the key "x"; a space sorts before '*'.
    assert!(label_less(&s("  x"), &s("* x")));
    assert!(!label_less(&s("* x"), &s("  x")));
    assert!(!label_less(&s("* x"), &s("* x")));
}

#[test]
fn strip_removes_leading_spaces_and_stars_only() {
    assert_eq!(strip_markers(&s("* foo (1, iaas)")), "foo (1, iaas)");
    assert_eq!(strip_markers(&s("  *  bar")), "bar");
    assert_eq!(strip_markers(&s("a * b")), "a * b");
    assert_eq!(strip_markers(&s(" * ")), "");
    assert_eq!(strip_markers(&s("")), "");
}

#[test]
fn compare_text_orders_by_code_point() {
    assert!(compare_text(&s("abc"), &s("abd")) < 0);
    assert!(compare_text(&s("abd"), &s("abc")) > 0);
    assert!(compare_text(&s("ab"), &s("abc")) < 0);
    assert!(compare_text(&s("abc"), &s("abc")) == 0);
    assert!(compare_text(&s("Z"), &s("a")) < 0);
    assert!(compare_text(&s("é"), &s("z")) > 0);
    assert!(compare_text(&s(""), &s("")) == 0);
}

#[test]
fn labels_carry_marker_version_and_kind() {
    let c = controller("2.9.42", "caas");
    assert_eq!(controller_label_text(&s("micro"), &c, &s("micro")), "* micro (2.9.42, caas)");
    assert_eq!(controller_label_text(&s("micro"), &c, &s("other")), "  micro (2.9.42, caas)");
    assert_eq!(model_label_text(&s("welcome"), &s("welcome")), "* welcome");
    assert_eq!(model_label_text(&s("welcome"), &s("")), "  welcome");
}

#[test]
fn sorted_order_lists_indices_in_display_order() {
    let labels = vec![s("* zulu"), s("  alpha"), s("  mike")];
    assert_eq!(sorted_order(&labels), vec![1, 2, 0]);
    assert_eq!(sorted_order(&Vec::new()), Vec::<usize>::new());
}

#[test]
fn empty_registries_render_nothing() {
    let cs = Controllers { controllers: vec![], current_controller: s("") };
    let ms = Models { controllers: vec![] };
    assert_eq!(build_and_render(&cs, &ms), "");
}

#[test]
fn controller_without_models_renders_its_line_alone() {
    let cs = Controllers {
        controllers: vec![(s("bare"), controller("3.0", "iaas"))],
        current_controller: s("none"),
    };
    let ms = Models { controllers: vec![(s("bare"), group(&[], ""))] };
    assert_eq!(build_and_render(&cs, &ms), "  bare (3.0, iaas)\n");
}

#[test]
fn applications_are_rendered_in_their_own_order() {
    let tree = JujuTree {
        controllers: vec![ControllerBranch {
            label: s("* c (1, iaas)"),
            models: vec![
                ModelBranch { label: s("  m2"), apps: vec![] },
                ModelBranch { label: s("* m1"), apps: vec![s("zeta"), s("alpha")] },
            ],
        }],
    };
    assert_eq!(
        render_tree(&tree),
        "* c (1, iaas)\n    * m1\n        zeta\n        alpha\n      m2\n"
    );
}

#[test]
fn colliding_controller_labels_keep_the_last_inserted() {
    // "a" at version "b (c" and "a (b" at version "c" give the same label.
    let cs = Controllers {
        controllers: vec![
            (s("a"), controller("b (c", "k")),
            (s("a (b"), controller("c", "k")),
        ],
        current_controller: s(""),
    };
    let ms = Models {
        controllers: vec![(s("a"), group(&["first"], "")), (s("a (b"), group(&["second"], ""))],
    };
    assert_eq!(build_and_render(&cs, &ms), "  a (b (c, k)\n      second\n");
}

#[test]
fn artifacts_keep_their_paths() {
    let a = JujuArtifacts::new(s("/c.yaml"), s("/m.yaml"));
    assert_eq!(a.controllers_filepath, "/c.yaml");
    assert_eq!(a.models_filepath, "/m.yaml");
}
