use installer::conf::Config;
use installer::installer::{AppList, Dependency};

#[test]
fn config_default_is_empty() {
    let c = Config::default();
    assert!(c.config_file.is_none() && c.config_dir.is_none());
    assert!(c.app_file.is_none() && c.dep_file.is_none());
}

#[test]
fn new_lists_are_empty() {
    let d = Dependency::new();
    assert!(d.dependency.is_none() && d.extra.is_none());
    let l = AppList::new();
    assert!(l.shell.is_none() && l.hyperdots.is_none());
}
