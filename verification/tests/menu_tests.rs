use installer::conf::Config;
use installer::installer::{add_app, InstallState};
use installer::menu::{answer_tokens, App, EntryPrompt, Group, Line, Menu, MenuEntry};

fn app(name: &str, fullname: Option<&str>) -> App {
    let mut a = App::new(name);
    if let Some(f) = fullname {
        a.add_fullname(f.to_string());
    }
    a
}

fn names(g: &Group) -> Vec<&str> {
    g.bin.iter().map(|a| a.name.as_str()).collect()
}

fn editor_group() -> Group {
    let mut g = Group::new_with_name("editor");
    g.add(app("vim", None));
    g.add(app("emacs", Some("emacs-nox")));
    g.add(app("helix", None));
    g.add_default(app("neovim", Some("neovim-git")));
    g
}

fn prompt() -> EntryPrompt {
    let g = editor_group();
    assert!(Menu::can_enter(&g));
    Menu::new().entry(g)
}

#[test]
fn app_new_and_setters() {
    let mut a = App::new("kitty");
    assert_eq!(a.name, "kitty");
    assert!(a.version.is_none() && a.fullname.is_none() && a.description.is_none());
    assert_eq!(a.position, 0);
    a.add_version("1.2".to_string());
    a.add_fullname("kitty-git".to_string());
    a.add_description("terminal".to_string());
    a.set_position(3);
    a.set_position_str("3".to_string());
    assert_eq!(a.version.as_deref(), Some("1.2"));
    assert_eq!(a.fullname.as_deref(), Some("kitty-git"));
    assert_eq!(a.description.as_deref(), Some("terminal"));
    assert_eq!(a.position, 3);
    assert_eq!(a.position_str, "3");
}

#[test]
fn group_add_replaces_same_name() {
    let mut g = Group::new();
    g.add(app("a", None));
    g.add(app("b", None));
    g.add(app("a", Some("a-full")));
    assert_eq!(names(&g), vec!["a", "b"]);
    assert_eq!(g.bin[0].fullname.as_deref(), Some("a-full"));
}

#[test]
fn group_add_app_and_remove_app() {
    let mut g = Group::new_with_name_and_category("shells", "system");
    assert_eq!(g.category.as_deref(), Some("system"));
    g.add_app("zsh");
    g.add_app("fish");
    g.add_app("zsh");
    assert_eq!(names(&g), vec!["zsh", "fish"]);
    g.remove_app("zsh");
    assert_eq!(names(&g), vec!["fish"]);
    g.remove_app("bash");
    assert_eq!(names(&g), vec!["fish"]);
}

#[test]
fn group_add_default_takes_it_out() {
    let mut g = Group::new_with_category("cat".to_string());
    g.add(app("a", None));
    g.add(app("b", None));
    g.add_default(app("a", Some("a-git")));
    assert_eq!(names(&g), vec!["b"]);
    let d = g.default.clone().unwrap();
    assert_eq!(d.name, "a");
    assert_eq!(d.position, 0);
}

#[test]
fn group_setters() {
    let mut g = Group::new();
    g.set_installer("yay".to_string());
    g.add_description("desc".to_string());
    g.add_name("named");
    assert_eq!(g.installer.as_deref(), Some("yay"));
    assert_eq!(g.description.as_deref(), Some("desc"));
    assert_eq!(g.name.as_deref(), Some("named"));
}

#[test]
fn menu_entry_and_line() {
    let mut e = MenuEntry::new();
    e.add(Group::new_with_name("x"));
    assert_eq!(e.groups.len(), 1);
    let l = Line::new("text".to_string(), App::new("a"), 2);
    assert_eq!(l.text, "text");
    assert_eq!(l.position, 2);
}

#[test]
fn menu_groups_by_name() {
    let mut m = Menu::new();
    m.add_group(Group::new_with_name("a"));
    m.add_group(Group::new());
    m.new_group("b");
    m.new_group_with_name("a");
    let keys: Vec<&str> = m.groups.iter().map(|(k, _)| k.as_str()).collect();
    assert_eq!(keys, vec!["a", "", "b"]);
    m.remove_group("");
    let keys: Vec<&str> = m.groups.iter().map(|(k, _)| k.as_str()).collect();
    assert_eq!(keys, vec!["a", "b"]);
    m.editor_config();
    assert_eq!(m.groups.len(), 2);
}

#[test]
fn menu_add_needs_an_entry() {
    let mut m = Menu::new_with_config(Config::default());
    assert!(m.config.is_some());
    m.add(Group::new_with_name("dropped"));
    assert_eq!(m.menu_entry.as_ref().unwrap().groups.len(), 0);
    m.add(Group::new_with_name("kept"));
    assert_eq!(m.menu_entry.as_ref().unwrap().groups.len(), 1);
    m.add_menu_entry(MenuEntry::new());
    m.add_config(Config::default());
    assert_eq!(m.menu_entry.unwrap().groups.len(), 0);
}

#[test]
fn entry_lists_group() {
    let p = prompt();
    assert_eq!(p.header.as_deref(), Some("EDITOR"));
    assert_eq!(p.listing, "1. neovim, 2. vim, 3. emacs, 4. helix | Default: 1.");
    assert_eq!(p.positions, vec!["2".to_string(), "3".to_string(), "4".to_string()]);
    assert_eq!(names(&p.group), vec!["vim", "emacs", "helix"]);
}

#[test]
fn can_enter_needs_default_and_others() {
    let mut g = Group::new_with_name("x");
    g.add(app("a", None));
    assert!(!Menu::can_enter(&g));
    g.add_default(app("a", None));
    assert!(!Menu::can_enter(&g));
    g.add(app("b", None));
    assert!(Menu::can_enter(&g));
}

#[test]
fn empty_answer_selects_default() {
    let p = prompt();
    let mut state = InstallState::new();
    let msgs = p.select("", &mut state);
    assert!(msgs.is_empty());
    assert_eq!(state.apps, vec!["neovim-git".to_string()]);
}

#[test]
fn numbers_select_by_position() {
    let p = prompt();
    let mut state = InstallState::new();
    let msgs = p.select("2 3", &mut state);
    assert_eq!(state.apps, vec!["vim".to_string(), "emacs-nox".to_string()]);
    assert_eq!(msgs, vec!["invalid Input".to_string(), "add app emacs-nox".to_string()]);
}

#[test]
fn one_and_zero_select_default() {
    let p = prompt();
    let mut state = InstallState::new();
    p.select("1", &mut state);
    assert_eq!(state.apps, vec!["neovim-git".to_string()]);
    let mut state = InstallState::new();
    p.select("0", &mut state);
    assert_eq!(state.apps, vec!["neovim-git".to_string()]);
}

#[test]
fn out_of_range_numbers_are_reported() {
    let p = prompt();
    let mut state = InstallState::new();
    add_app(&mut state, "x");
    let msgs = p.select("3 9", &mut state);
    assert_eq!(
        msgs,
        vec!["invalid Input".to_string(), "add app emacs-nox".to_string(), "invalid Input".to_string()]
    );
    assert_eq!(state.apps, vec!["x".to_string(), "emacs-nox".to_string()]);
}

#[test]
fn words_are_ignored() {
    let p = prompt();
    let mut state = InstallState::new();
    let msgs = p.select("vim", &mut state);
    assert!(msgs.is_empty());
    assert!(state.apps.is_empty());
}

#[test]
fn commas_without_spaces_keep_whole_answer() {
    assert_eq!(answer_tokens("2,4"), vec!["2".to_string(), "4".to_string(), "2,4".to_string()]);
    assert_eq!(answer_tokens(" 2, 4"), vec!["2,".to_string(), "4".to_string()]);
    assert_eq!(answer_tokens("2  4"), vec!["2".to_string(), "4".to_string()]);
    let p = prompt();
    let mut state = InstallState::new();
    p.select("2,4", &mut state);
    assert_eq!(state.apps, vec!["vim".to_string(), "helix".to_string()]);
}

#[test]
fn try_select_refuses_unreadable_numbers() {
    let p = prompt();
    let mut state = InstallState::new();
    assert!(p.try_select("99999999999999999999999", &mut state).is_none());
    assert!(p.try_select("½", &mut state).is_none());
    assert!(state.apps.is_empty());
    let msgs = p.try_select("2", &mut state).unwrap();
    assert!(msgs.is_empty());
    assert_eq!(state.apps, vec!["vim".to_string()]);
    let msgs = p.try_select("4", &mut state).unwrap();
    assert_eq!(msgs, vec!["invalid Input".to_string()]);
    assert_eq!(state.apps, vec!["vim".to_string(), "helix".to_string()]);
}
