use installer::cli::{
    check_arguments, check_menu_arg, cli, list_files, menu_group, output_file, split_menu_arg,
    App, Cli, CommandError, Feature,
};
use installer::installer::{add_app, AppConf, AppList, Dependency, InstallState};

fn base_cli() -> Cli {
    Cli {
        list: Some("app_list.toml".to_string()),
        config: None,
        backup: true,
        backup_path: "~/backup/".to_string(),
        deps_file: Some("dep_list.toml".to_string()),
        menu: None,
        out: Some("out.lst".to_string()),
        groups: None,
    }
}

fn system_list() -> AppList {
    let mut l = AppList::new();
    l.system = Some(vec![("base".to_string(), None)]);
    l
}

#[test]
fn list_files_accepts_toml() {
    assert_eq!(
        list_files(&base_cli()),
        Ok(("app_list.toml".to_string(), "dep_list.toml".to_string()))
    );
}

#[test]
fn list_files_errors() {
    let mut c = base_cli();
    c.list = Some("app_list.json".to_string());
    assert_eq!(list_files(&c), Err(CommandError::WrongFileFormat));
    let mut c = base_cli();
    c.deps_file = Some("deps".to_string());
    assert_eq!(list_files(&c), Err(CommandError::WrongFileFormat));
    let mut c = base_cli();
    c.deps_file = None;
    assert_eq!(list_files(&c), Err(CommandError::NoArguments));
    assert_eq!(CommandError::NoArguments.message(), "No Arguments");
    assert_eq!(CommandError::WrongFileFormat.message(), "Wrong file format");
}

#[test]
fn output_file_required() {
    assert_eq!(output_file(&base_cli()), Ok("out.lst".to_string()));
    let mut c = base_cli();
    c.out = None;
    assert_eq!(output_file(&c), Err(CommandError::NoOutput));
    assert_eq!(CommandError::NoOutput.message(), "no output specified");
}

#[test]
fn check_arguments_runs_configured_install() {
    let mut state = InstallState::new();
    check_arguments(&base_cli(), &mut state, system_list(), Dependency::new());
    assert_eq!(state.apps, vec!["base".to_string()]);
    let mut c = base_cli();
    c.groups = Some(App::All);
    let mut state = InstallState::new();
    check_arguments(&c, &mut state, system_list(), Dependency::new());
    assert!(state.apps.is_empty());
    c.groups = Some(App::Shell);
    check_arguments(&c, &mut state, system_list(), Dependency::new());
    assert!(state.apps.is_empty());
    c.groups = Some(App::Config);
    add_app(&mut state, "x");
    check_arguments(&c, &mut state, system_list(), Dependency::new());
    assert_eq!(state.apps, vec!["x".to_string(), "base".to_string()]);
    cli();
}

#[test]
fn menu_args() {
    assert!(check_menu_arg("editor"));
    assert!(check_menu_arg("editor=neovim"));
    assert!(!check_menu_arg("a=b=c"));
    assert_eq!(split_menu_arg("editor"), ("editor".to_string(), None));
    assert_eq!(
        split_menu_arg("editor=neovim"),
        ("editor".to_string(), Some("neovim".to_string()))
    );
}

#[test]
fn menu_group_from_extra() {
    let mut l = AppList::new();
    l.extra = Some(vec![(
        "editor".to_string(),
        vec![
            ("vim".to_string(), None),
            (
                "neovim".to_string(),
                Some(AppConf { install: Some(false), version: None, fullname: Some("neovim-git".to_string()) }),
            ),
        ],
    )]);
    let g = menu_group(&l, "editor", &Some("neovim".to_string())).unwrap();
    assert_eq!(g.name.as_deref(), Some("editor"));
    assert_eq!(g.bin.len(), 1);
    assert_eq!(g.bin[0].name, "vim");
    let d = g.default.unwrap();
    assert_eq!(d.name, "neovim");
    assert_eq!(d.fullname.as_deref(), Some("neovim-git"));
    let g = menu_group(&l, "editor", &None).unwrap();
    assert_eq!(g.bin.len(), 2);
    assert!(g.default.is_none());
    assert!(menu_group(&l, "shell", &None).is_none());
    assert!(menu_group(&AppList::new(), "editor", &None).is_none());
}

#[test]
fn feature_backup() {
    let mut f = Feature::new();
    assert!(!f.backup);
    f.set_backup(true);
    assert!(f.backup);
}
