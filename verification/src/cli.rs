//! The command line: its options, and the decisions a run takes from them
//! (which list files to read, where to write, which menu groups to offer).
use vstd::prelude::*;
use crate::installer::{
    are_entry_apps, config_selection, extra_wf, find_table, install_all, install_from_config,
    is_entry_app, opt_view, table_wf, AppConf, AppList, AppTable, Dependency, InstallState,
};
use crate::menu::{has_app, remove_app_named, App as MenuApp, Group};
use crate::text::{contains_char, contains_seq, contains_str, split_char, split_seq, str_eq};

verus! {

/// The groups of applications that can be installed at once.
#[derive(Debug, Clone, Copy, PartialEq, Eq)]
pub enum App {
    Config,
    All,
    System,
    Displaymanager,
    Extra,
    Shell,
    Windowmanager,
    Dependicies,
    Theming,
    Hyperdots,
}

/// The command-line options.
#[derive(Debug, Clone, PartialEq, Eq)]
pub struct Cli {
    pub list: Option<String>,
    pub config: Option<String>,
    pub backup: bool,
    pub backup_path: String,
    pub deps_file: Option<String>,
    pub menu: Option<Vec<String>>,
    pub out: Option<String>,
    pub groups: Option<App>,
}

/// Does nothing.
pub fn cli() {
}

/// Whether the group option asks for a configured installation: when it
/// is absent or names the configuration.
pub open spec fn installs_from_config(groups: Option<App>) -> bool {
    groups is None || groups == Some(App::Config)
}

/// Acts on the group option: installing every group does nothing; the
/// configuration (or no group) runs a configured installation; any other
/// group does nothing.
pub fn check_arguments(c: &Cli, state: &mut InstallState, app_list: AppList, dep_list: Dependency)
    ensures
        final(state).apps_view() == if installs_from_config(c.groups) {
            config_selection(old(state).apps_view(), app_list, dep_list)
        } else {
            old(state).apps_view()
        },
        final(state).params == old(state).params,
{
    match c.groups {
        Some(App::All) => install_all(),
        Some(App::Config) => install_from_config(state, app_list, dep_list),
        None => install_from_config(state, app_list, dep_list),
        _ => (),
    }
}

/// Optional program features.
#[derive(Debug, Clone, Copy, PartialEq, Eq)]
pub struct Feature {
    pub backup: bool,
}

impl Feature {
    /// No backup.
    pub fn new() -> (res: Feature)
        ensures
            !res.backup,
    {
        Feature { backup: false }
    }

    /// Sets whether to back up.
    pub fn set_backup(&mut self, backup: bool)
        ensures
            final(self).backup == backup,
    {
        self.backup = backup;
    }
}

// ---------------------------------------------------------------------------
// The decisions of a run
// ---------------------------------------------------------------------------

/// Why a run stops before doing anything.
#[derive(Debug, Clone, Copy, PartialEq, Eq)]
pub enum CommandError {
    /// A list file is not a `.toml` file.
    WrongFileFormat,
    /// A list file is missing.
    NoArguments,
    /// No output file was given.
    NoOutput,
}

impl CommandError {
    /// The message a run stops with.
    pub open spec fn message_seq(self) -> Seq<char> {
        match self {
            CommandError::WrongFileFormat => "Wrong file format"@,
            CommandError::NoArguments => "No Arguments"@,
            CommandError::NoOutput => "no output specified"@,
        }
    }

    /// The message a run stops with.
    pub fn message(&self) -> (res: String)
        ensures
            res@ == self.message_seq(),
    {
        match self {
            CommandError::WrongFileFormat => String::from_str("Wrong file format"),
            CommandError::NoArguments => String::from_str("No Arguments"),
            CommandError::NoOutput => String::from_str("no output specified"),
        }
    }
}

/// Whether an optional list file is absent or a `.toml` file.
pub open spec fn toml_ok(f: Option<String>) -> bool {
    match f {
        Some(f) => contains_seq(f@, ".toml"@),
        None => true,
    }
}

/// The list files a run reads: the application list and the dependency
/// list, both required and both `.toml` files.
pub open spec fn list_files_spec(c: Cli) -> Result<(Seq<char>, Seq<char>), CommandError> {
    if !toml_ok(c.list) || !toml_ok(c.deps_file) {
        Err(CommandError::WrongFileFormat)
    } else {
        match (c.list, c.deps_file) {
            (Some(l), Some(d)) => if l@.len() > 0 && d@.len() > 0 {
                Ok((l@, d@))
            } else {
                Err(CommandError::NoArguments)
            },
            _ => Err(CommandError::NoArguments),
        }
    }
}

/// Checks a list-file option: `Ok` with its path (empty when absent), or
/// the error for a file that is not a `.toml` file.
fn toml_option(f: &Option<String>) -> (res: Result<String, CommandError>)
    ensures
        match res {
            Ok(p) => toml_ok(*f) && p@ == match f {
                Some(f) => f@,
                None => Seq::<char>::empty(),
            },
            Err(e) => !toml_ok(*f) && e == CommandError::WrongFileFormat,
        },
{
    match f {
        Some(f) => {
            if contains_str(f.as_str(), ".toml") {
                Ok(f.clone())
            } else {
                Err(CommandError::WrongFileFormat)
            }
        },
        None => Ok(String::new()),
    }
}

/// The application list and dependency list files to read.
pub fn list_files(c: &Cli) -> (res: Result<(String, String), CommandError>)
    ensures
        match res {
            Ok((l, d)) => list_files_spec(*c) == Ok::<(Seq<char>, Seq<char>), CommandError>(
                (l@, d@),
            ),
            Err(e) => list_files_spec(*c) == Err::<(Seq<char>, Seq<char>), CommandError>(e),
        },
{
    let app_list = match toml_option(&c.list) {
        Ok(p) => p,
        Err(e) => {
            return Err(e);
        },
    };
    let dep_list = match toml_option(&c.deps_file) {
        Ok(p) => p,
        Err(e) => {
            return Err(e);
        },
    };
    if app_list.as_str().unicode_len() > 0 && dep_list.as_str().unicode_len() > 0 {
        Ok((app_list, dep_list))
    } else {
        Err(CommandError::NoArguments)
    }
}

/// The output file: required.
pub fn output_file(c: &Cli) -> (res: Result<String, CommandError>)
    ensures
        match c.out {
            Some(o) => res matches Ok(r) && r@ == o@,
            None => res == Err::<String, CommandError>(CommandError::NoOutput),
        },
{
    match &c.out {
        Some(o) => Ok(o.clone()),
        None => Err(CommandError::NoOutput),
    }
}

// ---------------------------------------------------------------------------
// Menu options
// ---------------------------------------------------------------------------

/// Whether a menu option is a group name, or `group=default` with a
/// single `=`.
pub open spec fn menu_arg_ok(n: Seq<char>) -> bool {
    !n.contains('=') || split_seq(n, '=').len() == 2
}

/// Whether the menu option `n` is well formed (see `menu_arg_ok`).
pub fn check_menu_arg(n: &str) -> (res: bool)
    ensures
        res == menu_arg_ok(n@),
{
    if contains_char(n, '=') {
        split_char(n, '=').len() == 2
    } else {
        true
    }
}

/// Splits a menu option into a group name and an optional default
/// application: `group=default`, or just `group`.
pub fn split_menu_arg(n: &str) -> (res: (String, Option<String>))
    requires
        menu_arg_ok(n@),
    ensures
        if n@.contains('=') {
            res.0@ == split_seq(n@, '=')[0] && opt_view(res.1) == Some(split_seq(n@, '=')[1])
        } else {
            res.0@ == n@ && res.1 is None
        },
{
    if contains_char(n, '=') {
        let mut s = split_char(n, '=');
        let default = s.pop();
        let g = s.pop();
        match (g, default) {
            (Some(g), Some(d)) => (g, Some(d)),
            _ => (String::from_str(n), None),
        }
    } else {
        (String::from_str(n), None)
    }
}

/// The entries of `t` whose key is not `d`.
pub open spec fn entries_except(t: Seq<(String, Option<AppConf>)>, d: Option<Seq<char>>) -> Seq<
    (String, Option<AppConf>),
>
    decreases t.len(),
{
    if t.len() == 0 {
        t
    } else if d == Some(t.last().0@) {
        entries_except(t.drop_last(), d)
    } else {
        entries_except(t.drop_last(), d).push(t.last())
    }
}

/// The configuration of the entry of `t` with key `k`, if there is one.
pub open spec fn find_entry(t: Seq<(String, Option<AppConf>)>, k: Seq<char>) -> Option<
    Option<AppConf>,
>
    decreases t.len(),
{
    if t.len() == 0 {
        None
    } else if t.last().0@ == k {
        Some(t.last().1)
    } else {
        find_entry(t.drop_last(), k)
    }
}

/// Whether `default` is the default a menu group gets from the table `t`
/// and the requested default `d`.
pub open spec fn is_menu_default(
    default: Option<MenuApp>,
    t: Seq<(String, Option<AppConf>)>,
    d: Option<Seq<char>>,
) -> bool {
    match d {
        Some(d) => match find_entry(t, d) {
            Some(c) => default matches Some(a) && is_entry_app(a, d, c),
            None => default is None,
        },
        None => default is None,
    }
}

/// No key of `entries_except(t, d)` is `k` when no key of `t` is, and none
/// is `d`.
proof fn lemma_except_keys(t: Seq<(String, Option<AppConf>)>, d: Option<Seq<char>>, k: Seq<char>)
    requires
        forall|i: int| 0 <= i < t.len() ==> #[trigger] t[i].0@ != k || d == Some(k),
    ensures
        forall|i: int|
            0 <= i < entries_except(t, d).len() ==> #[trigger] entries_except(t, d)[i].0@ != k,
        forall|i: int|
            0 <= i < entries_except(t, d).len() ==> Some(#[trigger] entries_except(t, d)[i].0@)
                != d,
    decreases t.len(),
{
    if t.len() > 0 {
        assert forall|i: int| 0 <= i < t.drop_last().len() implies #[trigger] t.drop_last()[i].0@
            != k || d == Some(k) by {
            assert(t.drop_last()[i] == t[i]);
        }
        lemma_except_keys(t.drop_last(), d, k);
        let r = entries_except(t.drop_last(), d);
        if d != Some(t.last().0@) {
            let e = entries_except(t, d);
            assert forall|i: int| 0 <= i < e.len() implies #[trigger] e[i].0@ != k by {
                if i < r.len() {
                    assert(e[i] == r[i]);
                } else {
                    assert(t[t.len() - 1].0@ != k || d == Some(k));
                }
            }
            assert forall|i: int| 0 <= i < e.len() implies Some(#[trigger] e[i].0@) != d by {
                if i < r.len() {
                    assert(e[i] == r[i]);
                }
            }
        }
    }
}

/// `find_entry` finds nothing for a key that no entry has.
proof fn lemma_find_entry_none(t: Seq<(String, Option<AppConf>)>, k: Seq<char>)
    requires
        forall|i: int| 0 <= i < t.len() ==> #[trigger] t[i].0@ != k,
    ensures
        find_entry(t, k) is None,
    decreases t.len(),
{
    if t.len() > 0 {
        assert(t[t.len() - 1].0@ != k);
        assert forall|i: int| 0 <= i < t.drop_last().len() implies #[trigger] t.drop_last()[i].0@
            != k by {
            assert(t.drop_last()[i] == t[i]);
        }
        lemma_find_entry_none(t.drop_last(), k);
    }
}

/// The menu application for an entry.
fn menu_entry_app(key: &String, conf: &Option<AppConf>) -> (res: MenuApp)
    ensures
        is_entry_app(res, key@, *conf),
{
    let mut app = MenuApp::new(key.as_str());
    match conf {
        Some(conf) => {
            match &conf.fullname {
                Some(f) => app.add_fullname(f.clone()),
                None => {},
            }
            match &conf.version {
                Some(v) => app.add_version(v.clone()),
                None => {},
            }
        },
        None => {},
    }
    app
}

/// Adds the entries of `table` to an empty group: the entry whose key is
/// `default` becomes the default, the others its applications.
fn add_menu_apps(group: &mut Group, table: &AppTable, default: &Option<String>)
    requires
        table_wf(table@),
        old(group).wf(),
        old(group).bin@.len() == 0,
        old(group).default is None,
    ensures
        final(group).wf(),
        *final(group) == (Group { bin: final(group).bin, default: final(group).default, ..*old(group) }),
        are_entry_apps(final(group).bin@, entries_except(table@, opt_view(*default))),
        is_menu_default(final(group).default, table@, opt_view(*default)),
{
    let ghost g0 = *group;
    let ghost dv = opt_view(*default);
    let mut i: usize = 0;
    assert(table@.take(0) =~= Seq::<(String, Option<AppConf>)>::empty());
    while i < table.len()
        invariant
            table_wf(table@),
            dv == opt_view(*default),
            i <= table.len(),
            group.wf(),
            *group == (Group { bin: group.bin, default: group.default, ..g0 }),
            are_entry_apps(group.bin@, entries_except(table@.take(i as int), dv)),
            is_menu_default(group.default, table@.take(i as int), dv),
        decreases table.len() - i,
    {
        let ghost prefix = table@.take(i as int);
        assert(table@.take(i + 1).drop_last() =~= prefix);
        let key = &table[i].0;
        let conf = &table[i].1;
        proof {
            assert forall|j: int| 0 <= j < prefix.len() implies #[trigger] prefix[j].0@ != key@
                || dv == Some(key@) by {
                assert(prefix[j] == table@[j]);
            }
            lemma_except_keys(prefix, dv, key@);
            let e = entries_except(prefix, dv);
            assert forall|a: int| 0 <= a < group.bin@.len() implies #[trigger] group.bin@[a].name@
                != key@ by {
                assert(group.bin@[a].name@ == e[a].0@);
            }
            assert(!has_app(group.bin@, key@));
        }
        let ghost b0 = group.bin@;
        let app = menu_entry_app(key, conf);
        let ghost a = app;
        let is_default = match default {
            Some(d) => str_eq(app.name.as_str(), d.as_str()),
            None => false,
        };
        if is_default {
            group.add_default(app);
            proof {
                assert(remove_app_named(b0, key@) == b0);
                assert(entries_except(table@.take(i + 1), dv) == entries_except(prefix, dv));
                assert(find_entry(table@.take(i + 1), key@) == Some(*conf));
            }
        } else {
            group.add(app);
            proof {
                let e = entries_except(prefix, dv);
                assert(entries_except(table@.take(i + 1), dv) == e.push(table@[i as int]));
                assert(group.bin@ == b0.push(a));
                let e1 = entries_except(table@.take(i + 1), dv);
                assert forall|x: int| 0 <= x < group.bin@.len() implies is_entry_app(
                    #[trigger] group.bin@[x],
                    e1[x].0@,
                    e1[x].1,
                ) by {
                    if x < b0.len() {
                        assert(e1[x] == e[x]);
                    }
                }
                match dv {
                    Some(d) => {
                        assert(find_entry(table@.take(i + 1), d) == find_entry(prefix, d));
                    },
                    None => {},
                }
            }
        }
        i = i + 1;
    }
    assert(table@.take(table.len() as int) =~= table@);
}

/// The menu group offered for the option `g` (with requested default
/// `default`): `None` when the application list has no `extra` table
/// named `g`; else the group named `g` whose applications are that
/// table's entries, the one with key `default` (if any) as the default.
pub fn menu_group(app_list: &AppList, g: &str, default: &Option<String>) -> (res: Option<Group>)
    requires
        app_list.extra matches Some(e) ==> extra_wf(e@),
    ensures
        match app_list.extra {
            Some(e) => match find_table(e@, g@) {
                Some(t) => res matches Some(grp) && {
                    &&& grp.wf()
                    &&& grp.name matches Some(n) && n@ == g@
                    &&& grp.description is None
                    &&& grp.category is None
                    &&& grp.installer is None
                    &&& are_entry_apps(grp.bin@, entries_except(t@, opt_view(*default)))
                    &&& is_menu_default(grp.default, t@, opt_view(*default))
                },
                None => res is None,
            },
            None => res is None,
        },
{
    match &app_list.extra {
        Some(apps) => {
            let ghost e = apps@;
            let mut found: Option<usize> = None;
            let mut i: usize = 0;
            assert(e.take(0) =~= Seq::<(String, AppTable)>::empty());
            while i < apps.len()
                invariant
                    e == apps@,
                    extra_wf(e),
                    i <= apps.len(),
                    match found {
                        Some(j) => j < i && e[j as int].0@ == g@ && find_table(e.take(i as int), g@)
                            == Some(e[j as int].1),
                        None => find_table(e.take(i as int), g@) is None,
                    },
                decreases apps.len() - i,
            {
                assert(e.take(i + 1).drop_last() =~= e.take(i as int));
                if str_eq(apps[i].0.as_str(), g) {
                    found = Some(i);
                } else {
                    proof {
                        if let Some(j) = found {
                            assert(e[j as int].0@ == g@);
                        }
                    }
                }
                i = i + 1;
            }
            assert(e.take(apps.len() as int) =~= e);
            match found {
                Some(j) => {
                    let mut group = Group::new_with_name(g);
                    proof {
                        assert(table_wf(e[j as int].1@));
                    }
                    add_menu_apps(&mut group, &apps[j].1, default);
                    Some(group)
                },
                None => None,
            }
        },
        None => None,
    }
}

} // verus!
