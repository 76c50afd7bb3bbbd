use std::cmp::Ordering;

use mod_resolver::activation::{activation_set, apply_activation_list, check_conflicts, plan_load_order};
use mod_resolver::concepts::{
    collect_mods, InfoJson, Mod, ModEnabledType, ModListJson, ModListJsonMod, ModStructure, ModVersion,
    select_variant,
};
use mod_resolver::dependency::{ComparatorOp, ModDependency, ModDependencyType};
use mod_resolver::locale::LocaleHandler;
use mod_resolver::order::resolve_order;
use mod_resolver::storage::{entry_matches, find_in_archive};
use mod_resolver::version::SemVer;
use mod_resolver::ModDataErr;

fn dep(raw: &str) -> ModDependency {
    ModDependency::new(&raw.to_string()).unwrap()
}

fn variant(structure: ModStructure, version: (u64, u64, u64), deps: &[&str]) -> ModVersion {
    ModVersion {
        entry: String::from("entry"),
        dependencies: deps.iter().map(|d| dep(d)).collect(),
        structure,
        version: SemVer::new(version.0, version.1, version.2),
    }
}

fn enabled_mod(name: &str, deps: &[&str]) -> Mod {
    Mod {
        name: name.to_string(),
        version: Some(variant(ModStructure::Directory, (1, 0, 0), deps)),
        enabled: ModEnabledType::Latest,
    }
}

fn names_in_order(mods: &[Mod], order: &[usize]) -> Vec<String> {
    order.iter().map(|&i| mods[i].name.clone()).collect()
}

#[test]
fn semver_compare_is_lexicographic() {
    let a = SemVer::new(1, 2, 3);
    assert_eq!(a.compare(&SemVer::new(1, 10, 0)), Ordering::Less);
    assert_eq!(a.compare(&SemVer::new(0, 99, 99)), Ordering::Greater);
    assert_eq!(a.compare(&SemVer::new(1, 2, 3)), Ordering::Equal);
}

#[test]
fn dependency_without_prefix_is_required() {
    let d = dep("base");
    assert_eq!(d.name, "base");
    assert_eq!(d.dep_type, ModDependencyType::Required);
    assert!(d.version.is_none());
}

#[test]
fn dependency_prefixes_select_the_kind() {
    assert_eq!(dep("! bar").dep_type, ModDependencyType::Incompatible);
    assert_eq!(dep("? bar").dep_type, ModDependencyType::Optional);
    assert_eq!(dep("(?) bar").dep_type, ModDependencyType::OptionalHidden);
    assert_eq!(dep("~ bar").dep_type, ModDependencyType::OrderIndependent);
    assert_eq!(dep("(?) bar").name, "bar");
}

#[test]
fn dependency_with_version_constraint() {
    let d = dep("? Some Mod >= 1.2.3");
    assert_eq!(d.name, "Some Mod");
    assert_eq!(d.dep_type, ModDependencyType::Optional);
    assert_eq!(d.version, Some((ComparatorOp::GreaterEq, SemVer::new(1, 2, 3))));
    let e = dep("other<0.5.0");
    assert_eq!(e.name, "other");
    assert_eq!(e.version, Some((ComparatorOp::Less, SemVer::new(0, 5, 0))));
    assert_eq!(dep("x = 2.0.1").version, Some((ComparatorOp::Eq, SemVer::new(2, 0, 1))));
    assert_eq!(dep("x > 2.0.1").version, Some((ComparatorOp::Greater, SemVer::new(2, 0, 1))));
    assert_eq!(dep("x <= 2.0.1").version, Some((ComparatorOp::LessEq, SemVer::new(2, 0, 1))));
}

#[test]
fn malformed_dependencies_are_rejected() {
    for raw in ["", "   ", "!", ">= 1.0.0", "foo >= abc", "foo >= 1.0", "foo >="] {
        assert_eq!(
            ModDependency::new(&raw.to_string()).unwrap_err(),
            ModDataErr::MalformedDependency(raw.to_string())
        );
    }
}

#[test]
fn classify_storage_entries() {
    assert_eq!(ModStructure::parse("foo_1.0.0.zip", true, true), Ok(ModStructure::Zip));
    assert_eq!(ModStructure::parse("foo", true, false), Ok(ModStructure::Symlink));
    assert_eq!(ModStructure::parse("foo", false, true), Ok(ModStructure::Directory));
    assert_eq!(ModStructure::parse(".zip", false, true), Ok(ModStructure::Directory));
    assert_eq!(ModStructure::parse("foo.zipx", false, false), Err(ModDataErr::InvalidModStructure));
}

#[test]
fn archive_entries_match_at_root_or_one_level_down() {
    assert!(entry_matches("info.json", "info.json"));
    assert!(entry_matches("foo_1.0.0/info.json", "info.json"));
    assert!(!entry_matches("a/b/info.json", "info.json"));
    assert!(!entry_matches("/info.json", "info.json"));
    assert!(!entry_matches("foo/xinfo.json", "info.json"));
    let names = vec![
        "foo/control.lua".to_string(),
        "foo/locale/en/x.cfg".to_string(),
        "foo/info.json".to_string(),
    ];
    assert_eq!(find_in_archive(&names, "info.json"), Some(2));
    assert_eq!(find_in_archive(&names, "data.lua"), None);
}

#[test]
fn directory_beats_archive_of_same_version() {
    let dir = variant(ModStructure::Directory, (1, 2, 0), &[]);
    let zip = variant(ModStructure::Zip, (1, 2, 0), &[]);
    assert_eq!(select_variant(&vec![zip.clone(), dir.clone()]), 1);
    assert_eq!(select_variant(&vec![dir.clone(), zip.clone()]), 0);
    assert_eq!(zip.compare(&dir), Ordering::Less);
    assert_eq!(dir.compare(&zip), Ordering::Greater);
}

#[test]
fn winner_is_the_same_for_every_permutation() {
    let vs = vec![
        variant(ModStructure::Zip, (2, 0, 0), &[]),
        variant(ModStructure::Directory, (1, 9, 9), &[]),
        variant(ModStructure::Symlink, (2, 0, 0), &[]),
        variant(ModStructure::Zip, (0, 1, 0), &[]),
    ];
    let perms = [[0, 1, 2, 3], [3, 2, 1, 0], [1, 3, 0, 2], [2, 0, 3, 1]];
    for p in perms {
        let listing: Vec<ModVersion> = p.iter().map(|&i| vs[i].clone()).collect();
        let w = select_variant(&listing);
        assert_eq!(listing[w].structure, ModStructure::Symlink);
        assert_eq!(listing[w].version, SemVer::new(2, 0, 0));
    }
}

#[test]
fn offered_variant_replaces_only_a_lower_one() {
    let mut m = Mod { name: "foo".to_string(), version: None, enabled: ModEnabledType::Latest };
    m.offer_variant(variant(ModStructure::Zip, (1, 0, 0), &[]));
    m.offer_variant(variant(ModStructure::Directory, (1, 0, 0), &[]));
    assert_eq!(m.version.as_ref().unwrap().structure, ModStructure::Directory);
    m.offer_variant(variant(ModStructure::Symlink, (1, 0, 0), &[]));
    assert_eq!(m.version.as_ref().unwrap().structure, ModStructure::Directory);
    m.offer_variant(variant(ModStructure::Zip, (0, 9, 0), &[]));
    assert_eq!(m.version.as_ref().unwrap().version, SemVer::new(1, 0, 0));
}

#[test]
fn manifest_becomes_a_variant() {
    let info = InfoJson {
        dependencies: Some(vec!["base".to_string(), "? alpha >= 0.1.0".to_string()]),
        name: "zeta".to_string(),
        version: "1.2.3".to_string(),
    };
    let v = ModVersion::from_info("mods/zeta".to_string(), &info, ModStructure::Directory).unwrap();
    assert_eq!(v.version, SemVer::new(1, 2, 3));
    assert_eq!(v.dependencies.len(), 2);
    assert_eq!(v.dependencies[1].name, "alpha");
    let no_deps = InfoJson { dependencies: None, name: "a".to_string(), version: "0.0.1".to_string() };
    assert!(ModVersion::from_info("a".to_string(), &no_deps, ModStructure::Zip).unwrap().dependencies.is_empty());
}

#[test]
fn malformed_manifests_are_rejected() {
    let bad_version = InfoJson { dependencies: None, name: "a".to_string(), version: "1.2".to_string() };
    assert_eq!(
        ModVersion::from_info("a".to_string(), &bad_version, ModStructure::Zip).unwrap_err(),
        ModDataErr::MalformedManifest
    );
    let no_name = InfoJson { dependencies: None, name: String::new(), version: "1.2.0".to_string() };
    assert_eq!(
        ModVersion::from_info("a".to_string(), &no_name, ModStructure::Zip).unwrap_err(),
        ModDataErr::MalformedManifest
    );
    let bad_dep = InfoJson {
        dependencies: Some(vec!["base".to_string(), "x >= y".to_string()]),
        name: "a".to_string(),
        version: "1.2.0".to_string(),
    };
    assert_eq!(
        ModVersion::from_info("a".to_string(), &bad_dep, ModStructure::Zip).unwrap_err(),
        ModDataErr::MalformedDependency("x >= y".to_string())
    );
}

#[test]
fn chain_orders_base_alpha_zeta() {
    let mut mods = vec![enabled_mod("zeta", &["alpha"]), enabled_mod("alpha", &["base"])];
    apply_activation_list(&mut mods, &ModListJson { mods: vec![] });
    let active = activation_set(mods);
    let order = plan_load_order(&active).unwrap();
    assert_eq!(names_in_order(&active, &order), vec!["base", "alpha", "zeta"]);
}

#[test]
fn disabled_mod_is_left_out() {
    let mut mods = vec![enabled_mod("zeta", &[]), enabled_mod("alpha", &["base"])];
    let record = ModListJson {
        mods: vec![
            ModListJsonMod { name: "alpha".to_string(), enabled: false },
            ModListJsonMod { name: "missing".to_string(), enabled: false },
            ModListJsonMod { name: "base".to_string(), enabled: false },
        ],
    };
    apply_activation_list(&mut mods, &record);
    assert!(matches!(mods[1].enabled, ModEnabledType::Disabled));
    assert!(matches!(mods[0].enabled, ModEnabledType::Latest));
    let active = activation_set(mods);
    let order = plan_load_order(&active).unwrap();
    assert_eq!(names_in_order(&active, &order), vec!["base", "zeta"]);
}

#[test]
fn last_list_entry_for_a_name_decides() {
    let record = ModListJson {
        mods: vec![
            ModListJsonMod { name: "alpha".to_string(), enabled: false },
            ModListJsonMod { name: "alpha".to_string(), enabled: true },
        ],
    };
    assert!(matches!(record.enabled_type(&"alpha".to_string()), ModEnabledType::Latest));
    assert!(matches!(record.enabled_type(&"beta".to_string()), ModEnabledType::Latest));
}

#[test]
fn cycle_is_reported() {
    let mods = vec![enabled_mod("A", &["B"]), enabled_mod("B", &["A"]), enabled_mod("C", &[])];
    match resolve_order(&mods) {
        Err(ModDataErr::CyclicDependency(name)) => assert!(name == "A" || name == "B"),
        other => panic!("expected a cycle, got {:?}", other),
    }
}

#[test]
fn incompatibility_is_reported_before_ordering() {
    let mods = vec![enabled_mod("A", &["! B", "B"]), enabled_mod("B", &["A"])];
    assert_eq!(
        check_conflicts(&mods),
        Err(ModDataErr::IncompatibleMods("A".to_string(), "B".to_string()))
    );
    assert_eq!(
        plan_load_order(&mods),
        Err(ModDataErr::IncompatibleMods("A".to_string(), "B".to_string()))
    );
}

#[test]
fn incompatible_target_absent_is_fine() {
    let mods = vec![enabled_mod("A", &["! Z"]), enabled_mod("B", &[])];
    assert_eq!(check_conflicts(&mods), Ok(()));
}

#[test]
fn order_independent_and_incompatible_make_no_edge() {
    let mods = vec![enabled_mod("b", &["~ c"]), enabled_mod("c", &[]), enabled_mod("a", &["? c"])];
    let order = resolve_order(&mods).unwrap();
    assert_eq!(names_in_order(&mods, &order), vec!["b", "c", "a"]);
}

#[test]
fn ties_break_in_natural_order() {
    let mods = vec![enabled_mod("mod10", &[]), enabled_mod("mod2", &[]), enabled_mod("mod1", &[])];
    let order = resolve_order(&mods).unwrap();
    assert_eq!(names_in_order(&mods, &order), vec!["mod1", "mod2", "mod10"]);
}

#[test]
fn every_edge_points_forward() {
    let mods = vec![
        enabled_mod("d", &["b", "c"]),
        enabled_mod("c", &["a"]),
        enabled_mod("b", &["a", "(?) c"]),
        enabled_mod("a", &[]),
    ];
    let order = resolve_order(&mods).unwrap();
    assert_eq!(names_in_order(&mods, &order), vec!["a", "c", "b", "d"]);
    let empty: Vec<Mod> = vec![];
    assert_eq!(resolve_order(&empty), Ok(vec![]));
}

#[test]
fn locale_entries_are_keyed_by_section() {
    let mut h = LocaleHandler::new();
    assert!(h.get("cat.key").is_none());
    h.append_from_str("top=ignored\n[cat]\nkey=Value\nother=More\n[item-name]\niron=Iron plate\n").unwrap();
    assert_eq!(h.get("cat.key").unwrap(), "Value");
    assert_eq!(h.get("item-name.iron").unwrap(), "Iron plate");
    assert!(h.get("top").is_none());
    h.insert("cat.key".to_string(), "New".to_string());
    assert_eq!(h.get("cat.key").unwrap(), "New");
}

#[test]
fn ties_break_without_regard_to_case() {
    let mods = vec![enabled_mod("Beta", &[]), enabled_mod("alpha", &[]), enabled_mod("Gamma2", &[])];
    let order = resolve_order(&mods).unwrap();
    assert_eq!(names_in_order(&mods, &order), vec!["alpha", "Beta", "Gamma2"]);
}

#[test]
fn long_digit_runs_do_not_break_ordering() {
    let long = "m123456789012345678901234567890";
    let mods = vec![enabled_mod(long, &[]), enabled_mod("m1", &[]), enabled_mod("a", &[long])];
    let order = resolve_order(&mods).unwrap();
    assert_eq!(order.len(), 3);
    let pos = |n: &str| names_in_order(&mods, &order).iter().position(|x| x == n).unwrap();
    assert!(pos(long) < pos("a"));
}

#[test]
fn malformed_locale_leaves_entries_alone() {
    let mut h = LocaleHandler::new();
    h.insert("cat.key".to_string(), "Kept".to_string());
    assert_eq!(h.append_from_str("[cat]\n=orphan\n"), Err(ModDataErr::MalformedLocale));
    assert_eq!(h.get("cat.key").unwrap(), "Kept");
}

#[test]
fn base_mod_closes_the_activation_set() {
    let mods = vec![enabled_mod("alpha", &[]), Mod {
        name: "beta".to_string(),
        version: None,
        enabled: ModEnabledType::Disabled,
    }];
    let active = activation_set(mods);
    assert_eq!(active.len(), 2);
    assert_eq!(active[0].name, "alpha");
    assert_eq!(active[1].name, "base");
    assert!(active[1].version.is_none());
}

#[test]
fn variants_are_grouped_by_name() {
    let found = vec![
        ("foo".to_string(), variant(ModStructure::Zip, (1, 2, 0), &[])),
        ("bar".to_string(), variant(ModStructure::Zip, (0, 1, 0), &[])),
        ("foo".to_string(), variant(ModStructure::Directory, (1, 2, 0), &[])),
        ("foo".to_string(), variant(ModStructure::Zip, (1, 1, 9), &[])),
        ("bar".to_string(), variant(ModStructure::Symlink, (0, 2, 0), &[])),
    ];
    let mods = collect_mods(found);
    assert_eq!(mods.len(), 2);
    assert_eq!(mods[0].name, "foo");
    assert_eq!(mods[0].version.as_ref().unwrap().structure, ModStructure::Directory);
    assert_eq!(mods[0].version.as_ref().unwrap().version, SemVer::new(1, 2, 0));
    assert_eq!(mods[1].name, "bar");
    assert_eq!(mods[1].version.as_ref().unwrap().version, SemVer::new(0, 2, 0));
    assert!(matches!(mods[1].enabled, ModEnabledType::Latest));
}

#[test]
fn cycle_error_names_a_mod_on_the_cycle() {
    let mods = vec![enabled_mod("C", &["A"]), enabled_mod("A", &["B"]), enabled_mod("B", &["A"])];
    match resolve_order(&mods) {
        Err(ModDataErr::CyclicDependency(name)) => assert!(name == "A" || name == "B"),
        other => panic!("expected a cycle, got {:?}", other),
    }
}

#[test]
fn non_ascii_digit_names_do_not_break_ordering() {
    let a = format!("{}\u{b9}", "9".repeat(19));
    let b = format!("{}\u{b9}", "9".repeat(19));
    let mods = vec![enabled_mod(&a, &[]), enabled_mod(&b, &[]), enabled_mod("c", &[])];
    let order = resolve_order(&mods).unwrap();
    assert_eq!(order.len(), 3);
}

#[test]
fn relations_without_edges_leave_the_order_unchanged() {
    let plain = vec![enabled_mod("b", &["a"]), enabled_mod("a", &[]), enabled_mod("c", &[])];
    let extra = vec![
        enabled_mod("b", &["a", "~ c", "! zz", "ghost"]),
        enabled_mod("a", &["~ b", "? missing"]),
        enabled_mod("c", &["! nothing"]),
    ];
    assert_eq!(resolve_order(&plain), resolve_order(&extra));
}

#[test]
fn first_conflicting_pair_is_reported() {
    let mods = vec![enabled_mod("A", &["B"]), enabled_mod("B", &["! C", "! A"]), enabled_mod("C", &[])];
    assert_eq!(
        check_conflicts(&mods),
        Err(ModDataErr::IncompatibleMods("B".to_string(), "A".to_string()))
    );
}
