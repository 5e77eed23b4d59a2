use modular_agent_core::PatchSpec;
use modular_agent_desktop::entries::{cleanup_step, get_dir_entries, is_listable_path, trim_text, DirEntryInfo};
use modular_agent_desktop::events::{handle_event, BridgeAction, EngineEvent, Received};
use modular_agent_desktop::registry::NameRegistry;
use modular_agent_desktop::repo::{
    check_preset_file, confirm_move, is_running, save_notifications, ModularAgentApp, OpenPlan, PresetInfo, RepoError,
};

const ROOT: &str = "/home/u/.modular_agent/presets";

fn info(id: &str, running: bool) -> PresetInfo {
    PresetInfo { id: id.to_string(), running }
}

fn file(name: &str) -> DirEntryInfo {
    DirEntryInfo { name: name.to_string(), is_dir: false, is_file: true }
}

fn dir(name: &str) -> DirEntryInfo {
    DirEntryInfo { name: name.to_string(), is_dir: true, is_file: false }
}

#[test]
fn create_save_open_list() {
    let mut repo = ModularAgentApp::new(ROOT.to_string());
    assert_eq!(repo.new_preset_with_name("X".to_string(), "id1".to_string()), Ok("id1".to_string()));
    let plan = repo.save_preset("X", &PatchSpec::default()).unwrap();
    assert_eq!(plan.path, format!("{}/X.json", ROOT));
    assert!(PatchSpec::from_json(&plan.json).is_ok());
    assert_eq!(repo.open_preset("X"), Ok(OpenPlan::Live("id1".to_string())));
    let listing = vec![file("X.json")];
    assert_eq!(get_dir_entries(&listing), vec!["X".to_string()]);
    assert_eq!(repo.dir_listing_path(""), Ok(format!("{}/", ROOT)));
}

#[test]
fn create_rejects_invalid_name() {
    let mut repo = ModularAgentApp::new(ROOT.to_string());
    assert_eq!(repo.new_preset_with_name("a//b".to_string(), "id".to_string()), Err(RepoError::InvalidName));
    assert_eq!(repo.get_preset_id("a//b"), None);
    assert_eq!(repo.save_preset("a:b", &PatchSpec::default()), Err(RepoError::InvalidName));
}

#[test]
fn open_not_yet_live_loads_file() {
    let mut repo = ModularAgentApp::new(ROOT.to_string());
    assert_eq!(repo.open_preset("c/y"), Ok(OpenPlan::Load(format!("{}/c/y.json", ROOT))));
    repo.register_opened("c/y".to_string(), "7".to_string());
    assert_eq!(repo.open_preset("c/y"), Ok(OpenPlan::Live("7".to_string())));
    assert_eq!(repo.open_preset("../y"), Err(RepoError::InvalidName));
}

#[test]
fn delete_plans_engine_removal_and_file() {
    let mut repo = ModularAgentApp::new(ROOT.to_string());
    repo.register_opened("a/x".to_string(), "1".to_string());
    let plan = repo.delete_preset("a/x").unwrap();
    assert_eq!(plan.engine_id, Some("1".to_string()));
    assert_eq!(plan.path, format!("{}/a/x.json", ROOT));
    assert_eq!(plan.parent, "a");
    assert_eq!(repo.forget_preset("a/x"), Some("1".to_string()));
    assert_eq!(repo.get_preset_id("a/x"), None);
    let plan = repo.delete_preset("never/opened").unwrap();
    assert_eq!(plan.engine_id, None);
    assert_eq!(repo.delete_preset("a/../b"), Err(RepoError::InvalidName));
}

#[test]
fn import_twice_gives_stem_and_stem_copy() {
    let repo = ModularAgentApp::new(ROOT.to_string());
    let content = "{\"modules\": [], \"connections\": []}";
    let base = ModularAgentApp::import_base_name("flow", "dir").unwrap();
    assert_eq!(base, "dir/flow");
    let first = repo.import_preset(&base, &vec![], content).unwrap();
    assert_eq!(first.name, "dir/flow");
    assert_eq!(first.path, format!("{}/dir/flow.json", ROOT));
    let second = repo.import_preset(&base, &vec![first.name.clone()], content).unwrap();
    assert_eq!(second.name, "dir/flow copy");
    assert_ne!(first.path, second.path);
}

#[test]
fn import_errors() {
    let repo = ModularAgentApp::new(ROOT.to_string());
    assert_eq!(ModularAgentApp::import_base_name("flow", "../etc"), Err(RepoError::InvalidName));
    assert!(matches!(repo.import_preset("flow", &vec![], "not json"), Err(RepoError::ParseError(_))));
    assert_eq!(repo.import_preset("a//b", &vec![], "{}"), Err(RepoError::InvalidName));
}

#[test]
fn move_running_preset_is_refused() {
    let mut repo = ModularAgentApp::new(ROOT.to_string());
    repo.register_opened("A".to_string(), "idA".to_string());
    let infos = vec![info("idA", true)];
    assert_eq!(repo.move_preset("A", "B", &infos), Err(RepoError::EntityRunning));
    assert_eq!(repo.get_preset_id("A"), Some("idA".to_string()));
}

#[test]
fn move_preset_plan_and_finish() {
    let mut repo = ModularAgentApp::new(ROOT.to_string());
    repo.register_opened("A/x".to_string(), "1".to_string());
    let infos = vec![info("1", false)];
    let plan = repo.move_preset("A/x", "B", &infos).unwrap().unwrap();
    assert_eq!(plan.to, "B/x");
    assert_eq!(plan.from_path, format!("{}/A/x.json", ROOT));
    assert_eq!(plan.to_path, format!("{}/B/x.json", ROOT));
    assert_eq!(confirm_move(true, false), Ok(()));
    assert_eq!(confirm_move(false, false), Err(RepoError::SourceNotFound));
    assert_eq!(confirm_move(true, true), Err(RepoError::TargetExists));
    let mut auto = vec!["A/x".to_string(), "A/y".to_string()];
    let fx = repo.finish_move_preset("A/x", "B/x", &mut auto);
    assert_eq!(fx.renamed, vec![("1".to_string(), "B/x".to_string())]);
    assert_eq!(fx.changed_dirs, vec!["A".to_string(), "B".to_string()]);
    assert_eq!(fx.cleanup_from, "A");
    assert!(fx.auto_start_changed);
    assert_eq!(auto, vec!["B/x".to_string(), "A/y".to_string()]);
    assert_eq!(repo.get_preset_id("A/x"), None);
    assert_eq!(repo.get_preset_id("B/x"), Some("1".to_string()));
}

#[test]
fn move_to_same_place_is_noop() {
    let repo = ModularAgentApp::new(ROOT.to_string());
    assert_eq!(repo.move_preset("A/x", "A", &vec![]), Ok(None));
    assert_eq!(repo.move_preset("x", "", &vec![]), Ok(None));
    assert_eq!(repo.move_preset("x", "a:b", &vec![]), Err(RepoError::InvalidName));
}

#[test]
fn move_onto_open_name_is_refused() {
    let mut repo = ModularAgentApp::new(ROOT.to_string());
    repo.register_opened("A/x".to_string(), "1".to_string());
    repo.register_opened("B/x".to_string(), "2".to_string());
    assert_eq!(repo.move_preset("A/x", "B", &vec![]), Err(RepoError::TargetExists));
}

#[test]
fn save_and_import_write_the_serializer_text() {
    let repo = ModularAgentApp::new(ROOT.to_string());
    let spec = PatchSpec::default();
    let plan = repo.save_preset("a/X", &spec).unwrap();
    assert_eq!(plan.json, spec.to_json().unwrap());
    let content = "{\"modules\":[],\"connections\":[]}";
    let plan = repo.import_preset("flow", &vec![], content).unwrap();
    assert_eq!(plan.json, PatchSpec::from_json(content).unwrap().to_json().unwrap());
    assert_ne!(plan.json, content);
}

#[test]
fn move_folder_into_itself_is_refused() {
    let repo = ModularAgentApp::new(ROOT.to_string());
    assert_eq!(repo.move_folder("P", "P/Q", true, false, &vec![]), Err(RepoError::SelfMove));
    assert_eq!(repo.move_folder("P", "P", true, false, &vec![]), Err(RepoError::SelfMove));
    assert_eq!(repo.folder_move_paths("P", "P/Q"), Err(RepoError::SelfMove));
    assert_eq!(repo.move_folder("../P", "Q", true, false, &vec![]), Err(RepoError::InvalidPath));
    assert_eq!(repo.move_folder("P", "/Q", true, false, &vec![]), Err(RepoError::InvalidPath));
    assert_eq!(repo.move_folder("Q/P", "Q", true, false, &vec![]), Ok(None));
}

#[test]
fn move_folder_checks_disk_before_running_state() {
    let mut repo = ModularAgentApp::new(ROOT.to_string());
    repo.register_opened("P/x".to_string(), "1".to_string());
    let running = vec![info("1", true)];
    assert_eq!(repo.move_folder("P", "Q", false, false, &running), Err(RepoError::SourceNotFound));
    assert_eq!(repo.move_folder("P", "Q", true, true, &running), Err(RepoError::TargetExists));
    repo.register_opened("Q/P/y".to_string(), "2".to_string());
    assert_eq!(repo.move_folder("P", "Q", true, false, &vec![]), Err(RepoError::TargetExists));
}

#[test]
fn move_folder_with_running_member_is_refused() {
    let mut repo = ModularAgentApp::new(ROOT.to_string());
    repo.register_opened("P/x".to_string(), "1".to_string());
    assert_eq!(repo.move_folder("P", "Q", true, false, &vec![info("1", true)]), Err(RepoError::EntityRunning));
    let paths = repo.folder_move_paths("P", "Q").unwrap().unwrap();
    assert_eq!(paths.to_path, format!("{}/Q/P", ROOT));
    let plan = repo.move_folder("P", "Q", true, false, &vec![info("1", false)]).unwrap().unwrap();
    assert_eq!(plan.to, "Q/P");
    assert_eq!(plan.from_path, format!("{}/P", ROOT));
    assert_eq!(plan.to_path, format!("{}/Q/P", ROOT));
}

#[test]
fn move_folder_renames_open_members() {
    let mut repo = ModularAgentApp::new(ROOT.to_string());
    repo.register_opened("P/x".to_string(), "1".to_string());
    repo.register_opened("P/sub/y".to_string(), "2".to_string());
    repo.register_opened("PP/z".to_string(), "3".to_string());
    let mut auto = vec!["P/x".to_string(), "PP/z".to_string()];
    let fx = repo.finish_move_folder("P", "Q", &mut auto);
    assert_eq!(repo.get_preset_id("Q/x"), Some("1".to_string()));
    assert_eq!(repo.get_preset_id("Q/sub/y"), Some("2".to_string()));
    assert_eq!(repo.get_preset_id("PP/z"), Some("3".to_string()));
    assert_eq!(repo.get_preset_id("P/x"), None);
    let mut renamed = fx.renamed.clone();
    renamed.sort();
    assert_eq!(
        renamed,
        vec![("1".to_string(), "Q/x".to_string()), ("2".to_string(), "Q/sub/y".to_string())]
    );
    assert_eq!(auto, vec!["Q/x".to_string(), "PP/z".to_string()]);
    assert!(fx.auto_start_changed);
    assert_eq!(fx.changed_dirs, vec!["".to_string(), "".to_string()]);
}

#[test]
fn close_running_and_stopped() {
    let mut repo = ModularAgentApp::new(ROOT.to_string());
    repo.register_opened("r".to_string(), "1".to_string());
    repo.register_opened("s".to_string(), "2".to_string());
    let infos = vec![info("1", true), info("2", false)];
    assert!(!repo.close_preset("1", &infos));
    assert_eq!(repo.get_preset_id("r"), Some("1".to_string()));
    assert!(repo.close_preset("2", &infos));
    assert_eq!(repo.get_preset_id("s"), None);
    assert!(is_running(&infos, "1"));
    assert!(!is_running(&infos, "2"));
    assert!(!is_running(&infos, "3"));
}

#[test]
fn registry_reverse_removal() {
    let mut reg = NameRegistry::new();
    reg.insert("a".to_string(), "1".to_string());
    reg.insert("b".to_string(), "1".to_string());
    reg.insert("c".to_string(), "2".to_string());
    reg.insert("a".to_string(), "1".to_string());
    assert!(reg.contains_id("1"));
    reg.remove_by_id("1");
    assert!(!reg.contains_id("1"));
    assert_eq!(reg.lookup("a"), None);
    assert_eq!(reg.lookup("c"), Some("2".to_string()));
    assert_eq!(reg.remove_by_name("c"), Some("2".to_string()));
    assert_eq!(reg.remove_by_name("c"), None);
}

#[test]
fn cleanup_walks_up_to_non_empty_or_root() {
    // a/b/c and a/b are emptied by the move; a still holds files.
    let empty = ["a/b/c", "a/b"];
    let mut dir = "a/b/c".to_string();
    let mut notices = Vec::new();
    while let Some(parent) = cleanup_step(&dir, empty.contains(&dir.as_str())) {
        notices.push(parent.clone());
        dir = parent;
    }
    assert_eq!(notices, vec!["a/b".to_string(), "a".to_string()]);
    assert_eq!(cleanup_step("x", true), Some("".to_string()));
    assert_eq!(cleanup_step("", true), None);
    assert_eq!(cleanup_step("x", false), None);
}

#[test]
fn directory_entries() {
    let listing = vec![dir("Cat"), file(" spaced .json"), file("notes.txt"), file(".json"), file("a.b.json")];
    assert_eq!(
        get_dir_entries(&listing),
        vec!["Cat/".to_string(), "spaced".to_string(), "a.b".to_string()]
    );
    let repo = ModularAgentApp::new(ROOT.to_string());
    assert_eq!(repo.dir_listing_path("/etc"), Err(RepoError::InvalidPath));
    assert_eq!(repo.dir_listing_path("a/../b"), Err(RepoError::InvalidPath));
    assert_eq!(repo.dir_listing_path("Cat"), Ok(format!("{}/Cat", ROOT)));
    assert_eq!(trim_text("\u{3000} x \t"), "x");
}

#[test]
fn save_announcements() {
    assert_eq!(save_notifications("a/b/x", false, false), Vec::<String>::new());
    assert_eq!(save_notifications("a/b/x", true, true), vec!["a/b".to_string()]);
    assert_eq!(save_notifications("a/b/x", true, false), vec!["a/b".to_string(), "a".to_string()]);
    assert_eq!(save_notifications("x", true, false), vec!["".to_string()]);
}

#[test]
fn event_bridge_decisions() {
    let e = EngineEvent::Error { agent_id: "m1".to_string(), message: "boom".to_string() };
    assert_eq!(
        handle_event(Received::Event(e.clone())),
        BridgeAction::Forward("mak:agent_error".to_string(), e)
    );
    let e = EngineEvent::ConfigUpdated {
        agent_id: "m".to_string(),
        key: "k".to_string(),
        value_json: "1".to_string(),
    };
    assert_eq!(
        handle_event(Received::Event(e.clone())),
        BridgeAction::Forward("mak:agent_config_updated".to_string(), e)
    );
    assert_eq!(handle_event(Received::Event(EngineEvent::Other)), BridgeAction::Skip);
    assert_eq!(handle_event(Received::Lagged(3)), BridgeAction::WarnLagged(3));
    assert_eq!(handle_event(Received::Closed), BridgeAction::Stop);
}

#[test]
fn file_checks_before_reading() {
    assert_eq!(check_preset_file("/tmp/a/flow.json", true), Ok(()));
    assert_eq!(check_preset_file("/tmp/a/flow.json", false), Err(RepoError::NotAFile));
    assert_eq!(check_preset_file("/tmp/a/flow.txt", true), Err(RepoError::WrongExtension));
    assert_eq!(check_preset_file("/tmp/a/.json", true), Err(RepoError::WrongExtension));
    assert_eq!(check_preset_file("/tmp/x.json/flow", true), Err(RepoError::WrongExtension));
}

#[test]
fn listable_paths() {
    assert!(is_listable_path(""));
    assert!(is_listable_path("a/b"));
    assert!(is_listable_path("a.b/.c"));
    assert!(!is_listable_path("/a"));
    assert!(!is_listable_path(".."));
    assert!(!is_listable_path("a/..b"));
}

#[test]
fn registry_prefix_query() {
    let mut reg = NameRegistry::new();
    reg.insert("P/x".to_string(), "1".to_string());
    reg.insert("PP/y".to_string(), "2".to_string());
    reg.insert("P/a/b".to_string(), "3".to_string());
    let mut found = reg.entries_with_prefix("P/");
    found.sort();
    assert_eq!(
        found,
        vec![("P/a/b".to_string(), "3".to_string()), ("P/x".to_string(), "1".to_string())]
    );
    assert!(reg.entries_with_prefix("Q/").is_empty());
}
