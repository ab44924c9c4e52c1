use installer::installer::{
    add_app, add_extra, add_extra_deps, add_line, app_array, app_file_text, app_list,
    apps_to_install, check_app_conf, extra_menu, install_applications, install_from_config,
    install_target, params_file, write_to_file, AppConf, AppList, AppTable, Dependency,
    InstallState,
};

fn conf(install: Option<bool>, version: Option<&str>, fullname: Option<&str>) -> Option<AppConf> {
    Some(AppConf {
        install,
        version: version.map(|s| s.to_string()),
        fullname: fullname.map(|s| s.to_string()),
    })
}

fn table(entries: Vec<(&str, Option<AppConf>)>) -> AppTable {
    entries.into_iter().map(|(k, v)| (k.to_string(), v)).collect()
}

fn apps(state: &InstallState) -> Vec<&str> {
    state.apps.iter().map(|s| s.as_str()).collect()
}

#[test]
fn add_app_appends_once() {
    let mut state = InstallState::new();
    add_app(&mut state, "neovim");
    add_app(&mut state, "kitty");
    add_app(&mut state, "neovim");
    assert_eq!(apps(&state), vec!["neovim", "kitty"]);
    assert_eq!(app_array(&state).len(), 2);
}

#[test]
fn add_line_appends_line_break() {
    let mut state = InstallState::new();
    add_line(&mut state, "a=1");
    add_line(&mut state, "b=2");
    assert_eq!(params_file(&state), "a=1\nb=2\n");
}

#[test]
fn check_app_conf_follows_install_and_fullname() {
    let mut state = InstallState::new();
    let t = table(vec![
        ("plain", None),
        ("skipped", conf(Some(false), None, None)),
        ("wanted", conf(Some(true), None, Some("wanted-git"))),
        ("wanted2", conf(Some(true), Some("1.0"), None)),
        ("unset", conf(None, None, Some("unset-bin"))),
        ("unset2", conf(None, None, None)),
    ]);
    check_app_conf(&mut state, Some(t));
    assert_eq!(apps(&state), vec!["plain", "wanted-git", "wanted2", "unset-bin", "unset2"]);
}

#[test]
fn check_app_conf_none_changes_nothing() {
    let mut state = InstallState::new();
    add_app(&mut state, "x");
    check_app_conf(&mut state, None);
    assert_eq!(apps(&state), vec!["x"]);
}

#[test]
fn install_from_config_visits_tables_in_order() {
    let mut state = InstallState::new();
    let mut list = AppList::new();
    list.shell = Some(table(vec![("zsh", None)]));
    list.system = Some(table(vec![("base", None), ("git", None)]));
    list.theming = Some(table(vec![("git", None), ("papirus", None)]));
    let mut deps = Dependency::new();
    deps.dependency = Some(table(vec![("curl", None)]));
    deps.extra = Some(vec![
        ("zsh".to_string(), table(vec![("zsh-completions", None)])),
        ("absent".to_string(), table(vec![("never", None)])),
    ]);
    install_from_config(&mut state, list, deps);
    assert_eq!(
        apps(&state),
        vec!["base", "git", "papirus", "zsh", "curl", "zsh-completions"]
    );
}

#[test]
fn install_from_config_twice_adds_nothing_more() {
    let mut list = AppList::new();
    list.system = Some(table(vec![("base", None)]));
    let mut state = InstallState::new();
    install_from_config(&mut state, list.clone(), Dependency::new());
    install_from_config(&mut state, list, Dependency::new());
    assert_eq!(apps(&state), vec!["base"]);
}

#[test]
fn add_extra_deps_depends_on_what_is_selected() {
    let mut state = InstallState::new();
    add_app(&mut state, "hyprland");
    let mut deps = Dependency::new();
    deps.extra = Some(vec![
        ("sway".to_string(), table(vec![("swaybg", None)])),
        ("hyprland".to_string(), table(vec![("waybar", None), ("wofi", conf(Some(false), None, None))])),
        ("waybar".to_string(), table(vec![("otf-font-awesome", None)])),
    ]);
    add_extra_deps(&mut state, deps);
    assert_eq!(apps(&state), vec!["hyprland", "waybar", "otf-font-awesome"]);
}

#[test]
fn add_extra_selects_named_group() {
    let mut state = InstallState::new();
    let mut list = AppList::new();
    list.extra = Some(vec![
        ("browser".to_string(), table(vec![("firefox", None)])),
        ("application".to_string(), table(vec![("gimp", conf(None, None, Some("gimp-git")))])),
    ]);
    add_extra(&mut state, list.clone(), "browser");
    assert_eq!(apps(&state), vec!["firefox"]);
    install_applications(&mut state, list);
    assert_eq!(apps(&state), vec!["firefox", "gimp-git"]);
}

#[test]
fn write_to_file_reports_neovim() {
    let mut state = InstallState::new();
    write_to_file(&mut state);
    add_app(&mut state, "neovim");
    write_to_file(&mut state);
    assert_eq!(
        state.params,
        "export INSTALL_NEOVIM=\"false\"\nexport INSTALL_NEOVIM=\"true\"\n"
    );
}

#[test]
fn app_list_is_empty() {
    let l = app_list();
    assert_eq!(l, AppList::new());
    assert!(l.system.is_none() && l.extra.is_none());
}

#[test]
fn extra_menu_builds_group() {
    let mut state = InstallState::new();
    let mut list = AppList::new();
    list.extra = Some(vec![(
        "editor".to_string(),
        table(vec![
            ("neovim", conf(Some(true), Some("0.9"), Some("neovim-git"))),
            ("emacs", conf(Some(false), None, None)),
            ("helix", None),
            ("vim", conf(None, None, None)),
        ]),
    )]);
    let g = extra_menu(&mut state, list, "editor".to_string());
    assert_eq!(g.name.as_deref(), Some("editor"));
    let names: Vec<&str> = g.bin.iter().map(|a| a.name.as_str()).collect();
    assert_eq!(names, vec!["neovim", "helix", "vim"]);
    assert_eq!(g.bin[0].fullname.as_deref(), Some("neovim-git"));
    assert_eq!(g.bin[0].version.as_deref(), Some("0.9"));
    assert_eq!(apps(&state), vec!["helix"]);
}

#[test]
fn extra_menu_unknown_group_is_empty() {
    let mut state = InstallState::new();
    let g = extra_menu(&mut state, AppList::new(), "none".to_string());
    assert!(g.bin.is_empty());
    assert!(state.apps.is_empty());
}

#[test]
fn apps_to_install_skips_installed() {
    let apps = vec!["a".to_string(), "b".to_string(), "c".to_string()];
    let res = apps_to_install(&apps, &vec![false, true, false]);
    assert_eq!(res, vec!["a".to_string(), "c".to_string()]);
}

#[test]
fn app_file_text_one_per_line() {
    let apps = vec!["a".to_string(), "bc".to_string()];
    assert_eq!(app_file_text(&apps), "a\nbc\n");
    assert_eq!(app_file_text(&vec![]), "");
}

#[test]
fn install_target_is_parent_of_completed_path() {
    assert_eq!(install_target("out.lst".to_string()).as_deref(), Some("."));
    assert_eq!(install_target("/tmp/x/out.lst".to_string()).as_deref(), Some("/tmp/x"));
    assert_eq!(install_target("/".to_string()), None);
}
