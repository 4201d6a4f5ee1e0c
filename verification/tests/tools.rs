use nr::config_path::get_project_dir;
use nr::env_files::parse_env_line;
use nr::env_files::parse_env_lines;
use nr::env_files::scan_env_files;
use nr::env_files::EnvFile;
use nr::env_files::EnvFileList;
use nr::env_files::EnvScope;
use nr::nav::ensure_scroll;
use nr::nav::wrap_index;
use nr::package_manager::detect_package_manager;
use nr::package_manager::parse_package_manager_field;
use nr::package_manager::PackageManager;
use nr::project_id::project_id;
use nr::project_root::find_project_root;
use nr::project_root::DirProbe;
use nr::project_root::ProjectRootError;
use nr::workspaces::glob_max_depth;
use nr::workspaces::keep_strings;
use nr::workspaces::should_skip_dir;
use nr::workspaces::sort_workspace_packages;
use nr::workspaces::WorkspacePackage;

// --- package manager ---

#[test]
fn run_args_correct_for_each_pm() {
    assert_eq!(PackageManager::Bun.run_args("dev"), vec!["run", "dev"]);
    assert_eq!(PackageManager::Pnpm.run_args("dev"), vec!["run", "dev"]);
    assert_eq!(PackageManager::Yarn.run_args("dev"), vec!["dev"]);
    assert_eq!(PackageManager::Npm.run_args("dev"), vec!["run", "dev"]);
}

#[test]
fn command_name_correct_for_each_pm() {
    assert_eq!(PackageManager::Bun.command_name(), "bun");
    assert_eq!(PackageManager::Pnpm.command_name(), "pnpm");
    assert_eq!(PackageManager::Yarn.command_name(), "yarn");
    assert_eq!(PackageManager::Npm.command_name(), "npm");
}

#[test]
fn display_matches_command_name() {
    assert_eq!(PackageManager::Bun.command_name(), "bun");
    assert_eq!(PackageManager::Npm.command_name(), "npm");
}

#[test]
fn detects_manager_from_lockfiles_in_priority_order() {
    assert_eq!(
        detect_package_manager(true, false, true, true, true, None),
        PackageManager::Bun
    );
    assert_eq!(
        detect_package_manager(false, true, false, false, false, None),
        PackageManager::Bun
    );
    assert_eq!(
        detect_package_manager(false, false, true, true, false, None),
        PackageManager::Pnpm
    );
    assert_eq!(
        detect_package_manager(false, false, false, true, true, None),
        PackageManager::Yarn
    );
    assert_eq!(
        detect_package_manager(false, false, false, false, true, None),
        PackageManager::Npm
    );
}

#[test]
fn detects_manager_from_manifest_field() {
    assert_eq!(
        detect_package_manager(false, false, false, false, false, Some("pnpm@9.1.0")),
        PackageManager::Pnpm
    );
    assert_eq!(
        detect_package_manager(false, false, false, false, false, Some("yarn@4.0.0")),
        PackageManager::Yarn
    );
    assert_eq!(
        detect_package_manager(false, false, false, false, false, Some("bun@1.0.0")),
        PackageManager::Bun
    );
    // lockfiles take priority over the field
    assert_eq!(
        detect_package_manager(false, false, false, true, false, Some("pnpm@9.0.0")),
        PackageManager::Yarn
    );
    // nothing found falls back to npm
    assert_eq!(
        detect_package_manager(false, false, false, false, false, None),
        PackageManager::Npm
    );
}

#[test]
fn parses_manager_field_forms() {
    assert_eq!(
        parse_package_manager_field("pnpm@9.1.0"),
        Some(PackageManager::Pnpm)
    );
    assert_eq!(parse_package_manager_field("npm"), Some(PackageManager::Npm));
    assert_eq!(
        parse_package_manager_field(" yarn @4"),
        Some(PackageManager::Yarn)
    );
    assert_eq!(parse_package_manager_field("deno@1"), None);
}

// --- runner argument handling ---

#[test]
fn run_args_are_forwarded_correctly() {
    // Verify the command construction is correct for each PM
    let pm = PackageManager::Npm;
    let args = pm.run_args("test");
    assert_eq!(args, vec!["run", "test"]);

    let pm = PackageManager::Yarn;
    let args = pm.run_args("test");
    assert_eq!(args, vec!["test"]);
}

#[test]
fn test_args_parsing_splits_correctly() {
    let args = "-- --watch --coverage";
    let parsed: Vec<&str> = args.split_whitespace().collect();
    assert_eq!(parsed, vec!["--", "--watch", "--coverage"]);
}

// --- config paths and project identity ---

#[test]
fn test_get_project_dir_includes_project_id() {
    let dir = get_project_dir("/home/user/.config/nr", "abcd1234");
    assert!(dir.ends_with("projects/abcd1234"));
    assert!(dir.starts_with("/home/user/.config/nr"));
}

#[test]
fn test_project_id_is_deterministic() {
    let path = "/home/user/project";
    let id1 = project_id(path);
    let id2 = project_id(path);
    assert_eq!(id1, id2);
}

#[test]
fn test_project_id_is_8_chars() {
    let id = project_id("/home/user/project");
    assert_eq!(id.len(), 8);
}

#[test]
fn test_project_id_is_hex() {
    let id = project_id("/home/user/project");
    assert!(id.chars().all(|c| c.is_ascii_hexdigit()));
}

#[test]
fn test_different_paths_produce_different_ids() {
    let id1 = project_id("/home/user/project1");
    let id2 = project_id("/home/user/project2");
    assert_ne!(id1, id2);
}

#[test]
fn test_similar_paths_produce_different_ids() {
    let id1 = project_id("/home/user/project");
    let id2 = project_id("/home/user/project/");
    assert!(!id1.is_empty());
    assert!(!id2.is_empty());
}

#[test]
fn test_absolute_vs_relative_paths_differ() {
    let id1 = project_id("/home/user/project");
    let id2 = project_id("project");
    assert_ne!(id1, id2);
}

// --- list navigation ---

#[test]
fn test_wrap_index_normal_increment() {
    assert_eq!(wrap_index(0, 1, 5), 1);
    assert_eq!(wrap_index(2, 1, 5), 3);
}

#[test]
fn test_wrap_index_wraps_at_end() {
    assert_eq!(wrap_index(4, 1, 5), 0);
}

#[test]
fn test_wrap_index_wraps_at_start() {
    assert_eq!(wrap_index(0, -1, 5), 4);
}

#[test]
fn test_wrap_index_handles_zero_length() {
    assert_eq!(wrap_index(0, 1, 0), 0);
    assert_eq!(wrap_index(5, -1, 0), 0);
}

#[test]
fn test_ensure_scroll_adjusts_when_selected_below_offset() {
    let mut offset = 5;
    ensure_scroll(&mut offset, 3, 10);
    assert_eq!(offset, 3);
}

#[test]
fn test_ensure_scroll_adjusts_when_selected_above_visible() {
    let mut offset = 0;
    ensure_scroll(&mut offset, 15, 10);
    assert_eq!(offset, 6); // 15 - 10 + 1
}

#[test]
fn test_ensure_scroll_no_change_when_in_view() {
    let mut offset = 5;
    ensure_scroll(&mut offset, 10, 10);
    assert_eq!(offset, 5); // 10 is within [5, 15)
}

// --- environment files ---

fn env_file(path: &str, name: &str, root: bool) -> EnvFile {
    EnvFile {
        path: path.to_string(),
        display_name: name.to_string(),
        scope: if root {
            EnvScope::Root("..".to_string())
        } else {
            EnvScope::Package(".".to_string())
        },
    }
}

#[test]
fn test_env_file_list_all_files() {
    let list = EnvFileList {
        package_files: vec![env_file(".env", ".env", false)],
        root_files: vec![env_file("../.env", ".env", true)],
    };

    // all_files returns package -> root (UI display order)
    let all = list.all_files();
    assert_eq!(all.len(), 2);
    assert_eq!(all[0].path, ".env"); // package first
    assert_eq!(all[1].path, "../.env"); // root second
}

#[test]
fn test_env_file_list_merge_order() {
    let list = EnvFileList {
        package_files: vec![env_file(".env", ".env", false)],
        root_files: vec![env_file("../.env", ".env", true)],
    };

    // all_files_merge_order returns root -> package (merge order, package overrides)
    let all = list.all_files_merge_order();
    assert_eq!(all.len(), 2);
    assert_eq!(all[0].path, "../.env"); // root first
    assert_eq!(all[1].path, ".env"); // package second (overrides)
}

fn listing(names: &[&str]) -> Vec<String> {
    names.iter().map(|s| s.to_string()).collect()
}

#[test]
fn test_scan_env_files_finds_and_sorts_package_files() {
    let entries = listing(&[".env.local", "not-env.txt", ".env", ".env.development"]);
    let list = scan_env_files("/proj", &entries, None, &Vec::new());

    assert_eq!(list.package_files.len(), 3);
    assert_eq!(list.root_files.len(), 0);
    assert_eq!(list.package_files[0].display_name, ".env");
    assert_eq!(list.package_files[1].display_name, ".env.development");
    assert_eq!(list.package_files[2].display_name, ".env.local");
    assert_eq!(list.package_files[0].path, "/proj/.env");
}

#[test]
fn test_scan_env_files_separates_root_and_package() {
    let pkg_entries = listing(&[".env.local"]);
    let root_entries = listing(&[".env"]);
    let list = scan_env_files("/repo/apps/web", &pkg_entries, Some("/repo"), &root_entries);

    assert_eq!(list.package_files.len(), 1);
    assert_eq!(list.root_files.len(), 1);
    assert_eq!(list.package_files[0].display_name, ".env.local");
    assert_eq!(list.root_files[0].display_name, ".env");
    assert_eq!(list.root_files[0].path, "/repo/.env");
}

#[test]
fn test_scan_env_files_skips_root_if_same_as_package() {
    let entries = listing(&[".env"]);
    let list = scan_env_files("/proj", &entries, Some("/proj"), &entries);

    // Should only appear in package_files, not root_files
    assert_eq!(list.package_files.len(), 1);
    assert_eq!(list.root_files.len(), 0);
}

#[test]
fn test_parse_env_line_forms() {
    assert_eq!(
        parse_env_line("KEY1=value1"),
        Some(("KEY1".to_string(), "value1".to_string()))
    );
    assert_eq!(
        parse_env_line("KEY2=\"quoted value\""),
        Some(("KEY2".to_string(), "quoted value".to_string()))
    );
    assert_eq!(
        parse_env_line("KEY3='single quoted'"),
        Some(("KEY3".to_string(), "single quoted".to_string()))
    );
    assert_eq!(
        parse_env_line("  KEY4  =  spaced  "),
        Some(("KEY4".to_string(), "spaced".to_string()))
    );
    assert_eq!(parse_env_line("EMPTY="), Some(("EMPTY".to_string(), "".to_string())));
    assert_eq!(parse_env_line("# Comment line"), None);
    assert_eq!(parse_env_line(""), None);
    assert_eq!(parse_env_line("INVALID LINE"), None);
    assert_eq!(parse_env_line("=value"), None);
}

#[test]
fn test_parse_env_lines_keeps_order() {
    let lines = listing(&["# header", "A=1", "", "B=2", "bad line", "A=3"]);
    let pairs = parse_env_lines(&lines);
    assert_eq!(pairs.len(), 3);
    assert_eq!(pairs[0], ("A".to_string(), "1".to_string()));
    assert_eq!(pairs[1], ("B".to_string(), "2".to_string()));
    assert_eq!(pairs[2], ("A".to_string(), "3".to_string()));
}

// --- project root discovery ---

fn probe(path: &str, has_pkg: bool, is_ws: bool) -> DirProbe {
    DirProbe {
        path: path.to_string(),
        has_package_json: has_pkg,
        is_workspace_root: is_ws,
    }
}

#[test]
fn finds_nearest_package_json_in_cwd() {
    let probes = vec![probe("/repo/app", true, false), probe("/repo", false, false)];
    let root = find_project_root(&probes).unwrap();
    assert_eq!(root.nearest_pkg, "/repo/app");
    assert!(root.monorepo_root.is_none());
}

#[test]
fn returns_not_found_when_no_package_json() {
    let probes = vec![probe("/a/b", false, false), probe("/a", false, false)];
    let result = find_project_root(&probes);
    assert!(matches!(result.unwrap_err(), ProjectRootError::NotFound));
}

#[test]
fn detects_monorepo_root_above_nearest_package() {
    let probes = vec![
        probe("/repo/packages/app", true, false),
        probe("/repo/packages", false, false),
        probe("/repo", true, true),
    ];
    let root = find_project_root(&probes).unwrap();
    assert_eq!(root.nearest_pkg, "/repo/packages/app");
    assert_eq!(root.monorepo_root.unwrap(), "/repo");
}

#[test]
fn monorepo_root_equals_nearest_pkg_when_at_root_level() {
    let probes = vec![probe("/repo", true, true)];
    let root = find_project_root(&probes).unwrap();
    assert_eq!(root.nearest_pkg, "/repo");
    assert_eq!(root.monorepo_root.unwrap(), "/repo");
}

// --- workspace discovery decisions ---

#[test]
fn sorts_workspace_packages_by_relative_path() {
    let pkgs = vec![
        WorkspacePackage {
            name: "zeta".to_string(),
            relative_path: "packages/zeta".to_string(),
            scripts: vec![("dev".to_string(), "vite".to_string())],
        },
        WorkspacePackage {
            name: "alpha".to_string(),
            relative_path: "packages/alpha".to_string(),
            scripts: Vec::new(),
        },
    ];
    let sorted = sort_workspace_packages(pkgs);
    assert_eq!(sorted[0].relative_path, "packages/alpha");
    assert_eq!(sorted[1].relative_path, "packages/zeta");
    assert_eq!(sorted[1].scripts[0].0, "dev");
}

#[test]
fn glob_depth_counts_pattern_levels() {
    assert_eq!(glob_max_depth("packages/*"), 2);
    assert_eq!(glob_max_depth("apps/*/packages/*"), 4);
    assert_eq!(glob_max_depth("*"), 1);
}

#[test]
fn skips_hidden_and_dependency_directories() {
    assert!(should_skip_dir(".git"));
    assert!(should_skip_dir("node_modules"));
    assert!(!should_skip_dir("packages"));
    assert!(!should_skip_dir("src"));
}

#[test]
fn keeps_string_pattern_items_only() {
    let items = vec![
        Some("packages/*".to_string()),
        None,
        Some("apps/*".to_string()),
    ];
    let kept = keep_strings(items);
    assert_eq!(kept, vec!["packages/*".to_string(), "apps/*".to_string()]);
}
