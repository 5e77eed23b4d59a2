use modular_agent_desktop::autostart::{update_auto_start_presets, update_auto_start_presets_prefix};
use modular_agent_desktop::names::{
    base_name, is_valid_preset_name, join_preset_name, parent_preset_path, preset_path,
    preset_path_exists, presets_dir, unique_preset_name,
};

fn strings(v: &[&str]) -> Vec<String> {
    v.iter().map(|s| s.to_string()).collect()
}

#[test]
fn validate_rejects_malformed_names() {
    assert!(!is_valid_preset_name(""));
    assert!(!is_valid_preset_name("a/"));
    assert!(!is_valid_preset_name("a//b"));
    assert!(!is_valid_preset_name("../x"));
    assert!(!is_valid_preset_name("a:b"));
    assert!(is_valid_preset_name("Category/My Preset"));
}

#[test]
fn validate_edge_cases() {
    assert!(!is_valid_preset_name("   "));
    assert!(!is_valid_preset_name("\t\n"));
    assert!(!is_valid_preset_name("/a"));
    assert!(!is_valid_preset_name("."));
    assert!(!is_valid_preset_name(".."));
    assert!(!is_valid_preset_name("a/./b"));
    assert!(!is_valid_preset_name("a/.."));
    for c in ["\\", ":", "*", "?", "\"", "<", ">", "|"] {
        assert!(!is_valid_preset_name(&format!("a{}b", c)));
    }
    assert!(is_valid_preset_name("a..b"));
    assert!(is_valid_preset_name(".hidden"));
    assert!(is_valid_preset_name("a/...b"));
    assert!(is_valid_preset_name(" x "));
    assert!(is_valid_preset_name("日本/語"));
}

#[test]
fn parent_and_base_of_names() {
    assert_eq!(parent_preset_path("Category/MyPreset"), "Category");
    assert_eq!(parent_preset_path("MyPreset"), "");
    assert_eq!(parent_preset_path("a/b/c"), "a/b");
    assert_eq!(base_name("a/b/c"), "c");
    assert_eq!(base_name("c"), "c");
    assert_eq!(join_preset_name("", "x"), "x");
    assert_eq!(join_preset_name("a/b", "x"), "a/b/x");
}

#[test]
fn path_of_a_name_and_back() {
    let p = preset_path("/home/u/.modular_agent/presets", "Category/My Preset");
    assert_eq!(p, "/home/u/.modular_agent/presets/Category/My Preset.json");
    let root = "/r";
    for n in ["x", "a/b", "a/b/c.d"] {
        let p = preset_path(root, n);
        let rel = p.strip_prefix("/r/").unwrap();
        let back = rel.strip_suffix(".json").unwrap();
        assert_eq!(back.split('/').collect::<Vec<_>>(), n.split('/').collect::<Vec<_>>());
        assert_eq!(back, n);
    }
    assert_eq!(presets_dir("/home/u"), "/home/u/.modular_agent/presets");
}

#[test]
fn unique_name_probing() {
    assert_eq!(unique_preset_name("x", &strings(&[])), "x");
    assert_eq!(unique_preset_name("x", &strings(&["x"])), "x copy");
    assert_eq!(unique_preset_name("x", &strings(&["x", "x copy"])), "x copy 2");
    assert_eq!(unique_preset_name("x", &strings(&["x copy 2", "x", "x copy"])), "x copy 3");
    assert_eq!(unique_preset_name("x", &strings(&["x copy"])), "x");
    let mut taken = strings(&["d/x", "d/x copy"]);
    for i in 2..=12 {
        taken.push(format!("d/x copy {}", i));
    }
    assert_eq!(unique_preset_name("d/x", &taken), "d/x copy 13");
    assert!(preset_path_exists(&taken, "d/x copy 12"));
    assert!(!preset_path_exists(&taken, "d/x copy 13"));
}

#[test]
fn auto_start_exact_rename() {
    let mut list = strings(&["a/x", "b", "a/x", "a/xy"]);
    assert!(update_auto_start_presets(&mut list, "a/x", "c/x"));
    assert_eq!(list, strings(&["c/x", "b", "c/x", "a/xy"]));
    assert!(!update_auto_start_presets(&mut list, "zzz", "q"));
    assert_eq!(list, strings(&["c/x", "b", "c/x", "a/xy"]));
}

#[test]
fn auto_start_prefix_rename() {
    let mut list = strings(&["P/x", "P/y/z", "PP/x", "P", "Q/x"]);
    assert!(update_auto_start_presets_prefix(&mut list, "P/", "Q/"));
    assert_eq!(list, strings(&["Q/x", "Q/y/z", "PP/x", "P", "Q/x"]));
    assert!(!update_auto_start_presets_prefix(&mut list, "R/", "S/"));
}
