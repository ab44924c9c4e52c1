//! The application lists read from the configuration files, and the
//! selection of what is to be installed: the list of selected applications
//! (each at most once, in the order they were selected) and the text of the
//! parameters file.
use vstd::prelude::*;
use crate::text::views;
use crate::menu::{has_app, App, Group};

verus! {

/// How one application is configured in a list file.
#[derive(Debug, Clone, PartialEq, Eq)]
pub struct AppConf {
    pub install: Option<bool>,
    pub version: Option<String>,
    pub fullname: Option<String>,
}

/// One table of applications: each key names an application, with its
/// optional configuration.
pub type AppTable = Vec<(String, Option<AppConf>)>;

/// A table of named application tables (the `extra` sections).
pub type ExtraTable = Vec<(String, AppTable)>;

/// The application list file: one optional table per category.
#[derive(Debug, Clone, PartialEq, Eq)]
pub struct AppList {
    pub system: Option<AppTable>,
    pub displaymanager: Option<AppTable>,
    pub extra: Option<ExtraTable>,
    pub shell: Option<AppTable>,
    pub windowmanager: Option<AppTable>,
    pub dependicies: Option<AppTable>,
    pub theming: Option<AppTable>,
    pub hyperdots: Option<AppTable>,
}

/// The dependency list file.
#[derive(Debug, Clone, PartialEq, Eq)]
pub struct Dependency {
    pub dependency: Option<AppTable>,
    pub extra: Option<ExtraTable>,
}

/// What an installation run has gathered: the applications selected for
/// installation, and the text of the parameters file.
#[derive(Debug, Clone, PartialEq, Eq)]
pub struct InstallState {
    pub apps: Vec<String>,
    pub params: String,
}

impl AppList {
    /// Whether every category is absent.
    pub open spec fn is_empty_list(&self) -> bool {
        &&& self.system is None
        &&& self.displaymanager is None
        &&& self.extra is None
        &&& self.shell is None
        &&& self.windowmanager is None
        &&& self.dependicies is None
        &&& self.theming is None
        &&& self.hyperdots is None
    }

    /// An application list with no category.
    pub fn new() -> (res: AppList)
        ensures
            res.is_empty_list(),
    {
        AppList {
            extra: None,
            system: None,
            theming: None,
            windowmanager: None,
            dependicies: None,
            hyperdots: None,
            shell: None,
            displaymanager: None,
        }
    }
}

impl Dependency {
    /// A dependency list with no table.
    pub fn new() -> (res: Dependency)
        ensures
            res.dependency is None,
            res.extra is None,
    {
        Dependency { dependency: None, extra: None }
    }
}

impl InstallState {
    /// The selected applications, as character sequences.
    pub open spec fn apps_view(&self) -> Seq<Seq<char>> {
        views(self.apps@)
    }

    /// Nothing selected, an empty parameters file.
    pub fn new() -> (res: InstallState)
        ensures
            res.apps@.len() == 0,
            res.params@.len() == 0,
    {
        InstallState { apps: Vec::new(), params: String::new() }
    }
}

// ---------------------------------------------------------------------------
// The selection rules
// ---------------------------------------------------------------------------

/// The name under which the entry `key` with configuration `conf` is
/// installed, or `None` when the configuration says not to install it:
/// without a configuration the key is installed; with one, it is installed
/// unless `install` is `false`, under `fullname` when that is given.
pub open spec fn entry_name(key: Seq<char>, conf: Option<AppConf>) -> Option<Seq<char>> {
    match conf {
        None => Some(key),
        Some(c) => if c.install == Some(false) {
            None
        } else {
            match c.fullname {
                Some(f) => Some(f@),
                None => Some(key),
            }
        },
    }
}

/// The names a table selects, in table order.
pub open spec fn table_names(t: Seq<(String, Option<AppConf>)>) -> Seq<Seq<char>>
    decreases t.len(),
{
    if t.len() == 0 {
        Seq::empty()
    } else {
        let rest = table_names(t.drop_last());
        match entry_name(t.last().0@, t.last().1) {
            Some(n) => rest.push(n),
            None => rest,
        }
    }
}

/// The names an optional table selects.
pub open spec fn opt_table_names(t: Option<AppTable>) -> Seq<Seq<char>> {
    match t {
        Some(t) => table_names(t@),
        None => Seq::empty(),
    }
}

/// `apps` after selecting `n`: unchanged when `n` is already selected,
/// else with `n` appended.
pub open spec fn add_name(apps: Seq<Seq<char>>, n: Seq<char>) -> Seq<Seq<char>> {
    if apps.contains(n) {
        apps
    } else {
        apps.push(n)
    }
}

/// `apps` after selecting each of `names` in turn.
pub open spec fn add_names(apps: Seq<Seq<char>>, names: Seq<Seq<char>>) -> Seq<Seq<char>>
    decreases names.len(),
{
    if names.len() == 0 {
        apps
    } else {
        add_name(add_names(apps, names.drop_last()), names.last())
    }
}

/// `apps` after selecting, for each table of `extra` named `group`, the
/// names that table selects.
pub open spec fn add_group_names(
    apps: Seq<Seq<char>>,
    extra: Seq<(String, AppTable)>,
    group: Seq<char>,
) -> Seq<Seq<char>>
    decreases extra.len(),
{
    if extra.len() == 0 {
        apps
    } else {
        let before = add_group_names(apps, extra.drop_last(), group);
        if extra.last().0@ == group {
            add_names(before, table_names(extra.last().1@))
        } else {
            before
        }
    }
}

/// `apps` after the dependency tables of `extra`: in turn, each table whose
/// name is already selected at that point adds the names it selects.
pub open spec fn add_dependency_names(
    apps: Seq<Seq<char>>,
    extra: Seq<(String, AppTable)>,
) -> Seq<Seq<char>>
    decreases extra.len(),
{
    if extra.len() == 0 {
        apps
    } else {
        let before = add_dependency_names(apps, extra.drop_last());
        if before.contains(extra.last().0@) {
            add_names(before, table_names(extra.last().1@))
        } else {
            before
        }
    }
}

/// The names the category tables of an application list and the dependency
/// table select, in the order in which a configured installation visits
/// them.
pub open spec fn config_names(app_list: AppList, dep_list: Dependency) -> Seq<Seq<char>> {
    opt_table_names(app_list.system) + opt_table_names(app_list.displaymanager)
        + opt_table_names(app_list.theming) + opt_table_names(app_list.hyperdots)
        + opt_table_names(app_list.dependicies) + opt_table_names(app_list.windowmanager)
        + opt_table_names(app_list.shell) + opt_table_names(dep_list.dependency)
}

/// The selection after a configured installation.
pub open spec fn config_selection(
    apps: Seq<Seq<char>>,
    app_list: AppList,
    dep_list: Dependency,
) -> Seq<Seq<char>> {
    let after_tables = add_names(apps, config_names(app_list, dep_list));
    match dep_list.extra {
        Some(extra) => add_dependency_names(after_tables, extra@),
        None => after_tables,
    }
}

/// Selecting a one-name list is selecting that name.
pub proof fn lemma_add_names_single(apps: Seq<Seq<char>>, n: Seq<char>)
    ensures
        add_names(apps, seq![n]) == add_name(apps, n),
{
    assert(seq![n].drop_last() =~= Seq::<Seq<char>>::empty());
    assert(add_names(apps, Seq::<Seq<char>>::empty()) == apps);
}

/// Selecting a list of names one after the other is selecting its two
/// halves one after the other.
pub proof fn lemma_add_names_append(
    apps: Seq<Seq<char>>,
    a: Seq<Seq<char>>,
    b: Seq<Seq<char>>,
)
    ensures
        add_names(apps, a + b) == add_names(add_names(apps, a), b),
    decreases b.len(),
{
    if b.len() == 0 {
        assert(a + b =~= a);
    } else {
        lemma_add_names_append(apps, a, b.drop_last());
        assert((a + b).drop_last() =~= a + b.drop_last());
    }
}

// ---------------------------------------------------------------------------
// Laws of the selection
// ---------------------------------------------------------------------------

/// Selecting an application never makes the selection hold one twice.
pub proof fn law_add_name_distinct(apps: Seq<Seq<char>>, n: Seq<char>)
    requires
        apps.no_duplicates(),
    ensures
        add_name(apps, n).no_duplicates(),
{
    if !apps.contains(n) {
        let r = apps.push(n);
        assert forall|i: int, j: int| 0 <= i < r.len() && 0 <= j < r.len() && i != j implies r[i]
            != r[j] by {
            if i == apps.len() {
                assert(apps[j] != n);
            } else if j == apps.len() {
                assert(apps[i] != n);
            }
        }
    }
}

/// Selecting applications one after the other never makes the selection
/// hold one twice.
pub proof fn law_add_names_distinct(apps: Seq<Seq<char>>, names: Seq<Seq<char>>)
    requires
        apps.no_duplicates(),
    ensures
        add_names(apps, names).no_duplicates(),
    decreases names.len(),
{
    if names.len() > 0 {
        law_add_names_distinct(apps, names.drop_last());
        law_add_name_distinct(add_names(apps, names.drop_last()), names.last());
    }
}

/// Selecting an application that is selected changes nothing: selecting
/// twice is selecting once.
pub proof fn law_add_name_idempotent(apps: Seq<Seq<char>>, n: Seq<char>)
    ensures
        add_name(apps, n).contains(n),
        add_name(add_name(apps, n), n) == add_name(apps, n),
{
    if !apps.contains(n) {
        assert(apps.push(n)[apps.len() as int] == n);
    }
}

/// Selecting keeps what was selected, in its order, and afterwards every
/// selected name is in the selection.
pub proof fn law_add_names_keeps(apps: Seq<Seq<char>>, names: Seq<Seq<char>>)
    ensures
        apps.is_prefix_of(add_names(apps, names)),
        forall|i: int| 0 <= i < names.len() ==> add_names(apps, names).contains(#[trigger] names[i]),
    decreases names.len(),
{
    if names.len() > 0 {
        let before = add_names(apps, names.drop_last());
        law_add_names_keeps(apps, names.drop_last());
        law_add_name_idempotent(before, names.last());
        let r = add_names(apps, names);
        assert(before.is_prefix_of(r));
        assert forall|i: int| 0 <= i < names.len() implies r.contains(#[trigger] names[i]) by {
            if i < names.len() - 1 {
                assert(names.drop_last()[i] == names[i]);
                let k = choose|k: int| 0 <= k < before.len() && before[k] == names[i];
                assert(r[k] == before[k]);
            }
        }
    }
}

/// The dependency tables keep what was selected, in its order.
pub proof fn law_dependency_names_keep(apps: Seq<Seq<char>>, extra: Seq<(String, AppTable)>)
    ensures
        apps.is_prefix_of(add_dependency_names(apps, extra)),
        apps.no_duplicates() ==> add_dependency_names(apps, extra).no_duplicates(),
    decreases extra.len(),
{
    if extra.len() > 0 {
        law_dependency_names_keep(apps, extra.drop_last());
        let before = add_dependency_names(apps, extra.drop_last());
        law_add_names_keeps(before, table_names(extra.last().1@));
        if apps.no_duplicates() {
            law_add_names_distinct(before, table_names(extra.last().1@));
        }
    }
}

/// A configured installation keeps what was selected, never selects an
/// application twice, and selects every application that the category
/// tables and the dependency table select.
pub proof fn law_config_selection(apps: Seq<Seq<char>>, app_list: AppList, dep_list: Dependency)
    ensures
        apps.is_prefix_of(config_selection(apps, app_list, dep_list)),
        apps.no_duplicates() ==> config_selection(apps, app_list, dep_list).no_duplicates(),
        forall|n: Seq<char>|
            config_names(app_list, dep_list).contains(n) ==> config_selection(
                apps,
                app_list,
                dep_list,
            ).contains(n),
{
    let names = config_names(app_list, dep_list);
    let mid = add_names(apps, names);
    law_add_names_keeps(apps, names);
    if apps.no_duplicates() {
        law_add_names_distinct(apps, names);
    }
    let r = config_selection(apps, app_list, dep_list);
    match dep_list.extra {
        Some(extra) => {
            law_dependency_names_keep(mid, extra@);
        },
        None => {},
    }
    assert(mid.is_prefix_of(r));
    assert forall|n: Seq<char>| names.contains(n) implies r.contains(n) by {
        let i = choose|i: int| 0 <= i < names.len() && names[i] == n;
        assert(mid.contains(names[i]));
        let k = choose|k: int| 0 <= k < mid.len() && mid[k] == n;
        assert(r[k] == mid[k]);
    }
}

// ---------------------------------------------------------------------------
// What the tables ask for
// ---------------------------------------------------------------------------

/// Whether the table entry `e` asks to install an application under the
/// name `n`: an entry without configuration asks for its key; a configured
/// entry asks unless it says `install = false`, for its full name when it
/// gives one and for its key otherwise.
pub open spec fn entry_wants(e: (String, Option<AppConf>), n: Seq<char>) -> bool {
    match e.1 {
        None => n == e.0@,
        Some(c) => c.install != Some(false) && n == match c.fullname {
            Some(f) => f@,
            None => e.0@,
        },
    }
}

/// Whether some entry of the table `t` asks to install `n`.
pub open spec fn table_wants(t: Seq<(String, Option<AppConf>)>, n: Seq<char>) -> bool {
    exists|j: int| 0 <= j < t.len() && entry_wants(#[trigger] t[j], n)
}

/// Whether the optional table `t` asks to install `n`.
pub open spec fn opt_table_wants(t: Option<AppTable>, n: Seq<char>) -> bool {
    match t {
        Some(t) => table_wants(t@, n),
        None => false,
    }
}

/// Whether one of the category tables of `app_list`, or the dependency
/// table of `dep_list`, asks to install `n`.
pub open spec fn configured(app_list: AppList, dep_list: Dependency, n: Seq<char>) -> bool {
    ||| opt_table_wants(app_list.system, n)
    ||| opt_table_wants(app_list.displaymanager, n)
    ||| opt_table_wants(app_list.theming, n)
    ||| opt_table_wants(app_list.hyperdots, n)
    ||| opt_table_wants(app_list.dependicies, n)
    ||| opt_table_wants(app_list.windowmanager, n)
    ||| opt_table_wants(app_list.shell, n)
    ||| opt_table_wants(dep_list.dependency, n)
}

proof fn lemma_concat_contains(a: Seq<Seq<char>>, b: Seq<Seq<char>>, n: Seq<char>)
    ensures
        (a + b).contains(n) <==> (a.contains(n) || b.contains(n)),
{
    if a.contains(n) {
        let i = choose|i: int| 0 <= i < a.len() && a[i] == n;
        assert((a + b)[i] == n);
    }
    if b.contains(n) {
        let i = choose|i: int| 0 <= i < b.len() && b[i] == n;
        assert((a + b)[a.len() + i] == n);
    }
    if (a + b).contains(n) {
        let i = choose|i: int| 0 <= i < (a + b).len() && (a + b)[i] == n;
        if i < a.len() {
            assert(a[i] == n);
        } else {
            assert(b[i - a.len()] == n);
        }
    }
}

/// The names a table selects are exactly those its entries ask for.
pub proof fn law_table_names(t: Seq<(String, Option<AppConf>)>, n: Seq<char>)
    ensures
        table_names(t).contains(n) <==> table_wants(t, n),
    decreases t.len(),
{
    if t.len() > 0 {
        let d = t.drop_last();
        law_table_names(d, n);
        let before = table_names(d);
        let last = t[t.len() - 1];
        if table_wants(d, n) {
            let j = choose|j: int| 0 <= j < d.len() && entry_wants(#[trigger] d[j], n);
            assert(t[j] == d[j]);
        }
        if entry_wants(last, n) {
            assert(entry_wants(t[t.len() - 1], n));
        }
        if table_wants(t, n) {
            let j = choose|j: int| 0 <= j < t.len() && entry_wants(#[trigger] t[j], n);
            if j < t.len() - 1 {
                assert(d[j] == t[j]);
            }
        }
        match entry_name(last.0@, last.1) {
            Some(m) => {
                lemma_concat_contains(before, seq![m], n);
                assert(before + seq![m] =~= before.push(m));
                assert(seq![m].contains(n) <==> m == n) by {
                    if seq![m].contains(n) {
                        let i = choose|i: int| 0 <= i < 1 && seq![m][i] == n;
                    }
                    if m == n {
                        assert(seq![m][0] == n);
                    }
                }
            },
            None => {},
        }
    } else {
        assert(!table_wants(t, n));
    }
}

/// What selecting a list of names holds: what was selected before, and
/// the names, nothing else.
pub proof fn law_add_names_holds(apps: Seq<Seq<char>>, names: Seq<Seq<char>>, n: Seq<char>)
    ensures
        add_names(apps, names).contains(n) <==> (apps.contains(n) || names.contains(n)),
    decreases names.len(),
{
    if names.len() > 0 {
        let d = names.drop_last();
        law_add_names_holds(apps, d, n);
        let before = add_names(apps, d);
        let m = names.last();
        assert(names =~= d.push(m));
        lemma_concat_contains(d, seq![m], n);
        assert(d + seq![m] =~= names);
        assert(seq![m].contains(n) <==> m == n) by {
            if seq![m].contains(n) {
                let i = choose|i: int| 0 <= i < 1 && seq![m][i] == n;
            }
            if m == n {
                assert(seq![m][0] == n);
            }
        }
        if !before.contains(m) {
            lemma_concat_contains(before, seq![m], n);
            assert(before + seq![m] =~= before.push(m));
        }
    }
}

/// A configured installation selects every application that one of the
/// eight configured tables asks for (system, display manager, theming,
/// hyperdots, dependencies, window manager, shell, and the dependency
/// table), keeps what was selected before, and adds nothing else besides
/// what the dependency `extra` tables ask for.
pub proof fn law_configured_tables_selected(
    apps: Seq<Seq<char>>,
    app_list: AppList,
    dep_list: Dependency,
    n: Seq<char>,
)
    ensures
        configured(app_list, dep_list, n) ==> config_selection(apps, app_list, dep_list).contains(
            n,
        ),
        apps.contains(n) ==> config_selection(apps, app_list, dep_list).contains(n),
        config_selection(apps, app_list, dep_list).contains(n) ==> apps.contains(n) || configured(
            app_list,
            dep_list,
            n,
        ) || (dep_list.extra matches Some(e) && exists|i: int|
            0 <= i < e@.len() && table_wants(#[trigger] e@[i].1@, n)),
{
    let n1 = opt_table_names(app_list.system);
    let n2 = opt_table_names(app_list.displaymanager);
    let n3 = opt_table_names(app_list.theming);
    let n4 = opt_table_names(app_list.hyperdots);
    let n5 = opt_table_names(app_list.dependicies);
    let n6 = opt_table_names(app_list.windowmanager);
    let n7 = opt_table_names(app_list.shell);
    let n8 = opt_table_names(dep_list.dependency);
    lemma_concat_contains(n1, n2, n);
    lemma_concat_contains(n1 + n2, n3, n);
    lemma_concat_contains(n1 + n2 + n3, n4, n);
    lemma_concat_contains(n1 + n2 + n3 + n4, n5, n);
    lemma_concat_contains(n1 + n2 + n3 + n4 + n5, n6, n);
    lemma_concat_contains(n1 + n2 + n3 + n4 + n5 + n6, n7, n);
    lemma_concat_contains(n1 + n2 + n3 + n4 + n5 + n6 + n7, n8, n);
    lemma_opt_table_names(app_list.system, n);
    lemma_opt_table_names(app_list.displaymanager, n);
    lemma_opt_table_names(app_list.theming, n);
    lemma_opt_table_names(app_list.hyperdots, n);
    lemma_opt_table_names(app_list.dependicies, n);
    lemma_opt_table_names(app_list.windowmanager, n);
    lemma_opt_table_names(app_list.shell, n);
    lemma_opt_table_names(dep_list.dependency, n);
    let names = config_names(app_list, dep_list);
    assert(names.contains(n) <==> configured(app_list, dep_list, n));
    law_config_selection(apps, app_list, dep_list);
    law_add_names_holds(apps, names, n);
    let mid = add_names(apps, names);
    match dep_list.extra {
        Some(e) => {
            law_dependency_names_holds(mid, e@, n);
            law_dependency_names_keep(mid, e@);
            if mid.contains(n) {
                let k = choose|k: int| 0 <= k < mid.len() && mid[k] == n;
                assert(config_selection(apps, app_list, dep_list)[k] == n);
            }
        },
        None => {},
    }
    if apps.contains(n) {
        let k = choose|k: int| 0 <= k < apps.len() && apps[k] == n;
        assert(config_selection(apps, app_list, dep_list)[k] == n);
    }
}

proof fn lemma_opt_table_names(t: Option<AppTable>, n: Seq<char>)
    ensures
        opt_table_names(t).contains(n) <==> opt_table_wants(t, n),
{
    match t {
        Some(t) => law_table_names(t@, n),
        None => {},
    }
}

/// After the dependency tables: for each table whose name was already
/// selected, every application it asks for is selected; what was selected
/// stays; and nothing is selected that no table asks for.
pub proof fn law_dependency_names_holds(
    apps: Seq<Seq<char>>,
    extra: Seq<(String, AppTable)>,
    n: Seq<char>,
)
    ensures
        forall|i: int|
            0 <= i < extra.len() && apps.contains(#[trigger] extra[i].0@) && table_wants(
                extra[i].1@,
                n,
            ) ==> add_dependency_names(apps, extra).contains(n),
        apps.contains(n) ==> add_dependency_names(apps, extra).contains(n),
        add_dependency_names(apps, extra).contains(n) ==> apps.contains(n) || exists|i: int|
            0 <= i < extra.len() && table_wants(#[trigger] extra[i].1@, n),
    decreases extra.len(),
{
    if extra.len() > 0 {
        let d = extra.drop_last();
        law_dependency_names_holds(apps, d, n);
        law_dependency_names_keep(apps, d);
        let before = add_dependency_names(apps, d);
        let last = extra[extra.len() - 1];
        law_table_names(last.1@, n);
        law_add_names_holds(before, table_names(last.1@), n);
        assert forall|i: int|
            0 <= i < extra.len() && apps.contains(#[trigger] extra[i].0@) && table_wants(
                extra[i].1@,
                n,
            ) implies add_dependency_names(apps, extra).contains(n) by {
            if i < extra.len() - 1 {
                assert(d[i] == extra[i]);
                assert(apps.contains(d[i].0@) && table_wants(d[i].1@, n));
                assert(before.contains(n));
            } else {
                let k = choose|k: int| 0 <= k < apps.len() && apps[k] == last.0@;
                assert(before[k] == last.0@);
                assert(before.contains(last.0@));
                assert(table_names(last.1@).contains(n));
            }
        }
        if add_dependency_names(apps, extra).contains(n) && !apps.contains(n) {
            if before.contains(n) {
                let i = choose|i: int| 0 <= i < d.len() && table_wants(#[trigger] d[i].1@, n);
                assert(extra[i] == d[i]);
            } else {
                assert(table_wants(extra[extra.len() - 1].1@, n));
            }
        }
    }
}

/// After the `extra` tables named `group`: every application such a table
/// asks for is selected; what was selected stays; and nothing is selected
/// that no such table asks for.
pub proof fn law_group_names_holds(
    apps: Seq<Seq<char>>,
    extra: Seq<(String, AppTable)>,
    group: Seq<char>,
    n: Seq<char>,
)
    ensures
        forall|i: int|
            0 <= i < extra.len() && #[trigger] extra[i].0@ == group && table_wants(extra[i].1@, n)
                ==> add_group_names(apps, extra, group).contains(n),
        apps.is_prefix_of(add_group_names(apps, extra, group)),
        add_group_names(apps, extra, group).contains(n) ==> apps.contains(n) || exists|i: int|
            0 <= i < extra.len() && #[trigger] extra[i].0@ == group && table_wants(extra[i].1@, n),
    decreases extra.len(),
{
    if extra.len() > 0 {
        let d = extra.drop_last();
        law_group_names_holds(apps, d, group, n);
        let before = add_group_names(apps, d, group);
        let last = extra[extra.len() - 1];
        law_table_names(last.1@, n);
        law_add_names_holds(before, table_names(last.1@), n);
        law_add_names_keeps(before, table_names(last.1@));
        assert forall|i: int|
            0 <= i < extra.len() && #[trigger] extra[i].0@ == group && table_wants(extra[i].1@, n)
                implies add_group_names(apps, extra, group).contains(n) by {
            if i < extra.len() - 1 {
                assert(d[i] == extra[i]);
                if last.0@ == group {
                    let k = choose|k: int| 0 <= k < before.len() && before[k] == n;
                    assert(add_group_names(apps, extra, group)[k] == n);
                }
            }
        }
        if add_group_names(apps, extra, group).contains(n) && !apps.contains(n) {
            if before.contains(n) {
                let i = choose|i: int|
                    0 <= i < d.len() && #[trigger] d[i].0@ == group && table_wants(d[i].1@, n);
                assert(extra[i] == d[i]);
            } else {
                assert(extra[extra.len() - 1].0@ == group);
            }
        }
    }
}

// ---------------------------------------------------------------------------
// The state operations
// ---------------------------------------------------------------------------

/// The application list that `app_list` hands out: it is never filled.
pub fn app_list() -> (res: AppList)
    ensures
        res.is_empty_list(),
{
    AppList::new()
}

/// The applications selected so far.
pub fn app_array(state: &InstallState) -> (res: &Vec<String>)
    ensures
        res == &state.apps,
{
    &state.apps
}

/// The text of the parameters file so far.
pub fn params_file(state: &InstallState) -> (res: &String)
    ensures
        res == &state.params,
{
    &state.params
}

/// Selects `app`, unless it is already selected.
pub fn add_app(state: &mut InstallState, app: &str)
    ensures
        final(state).apps_view() == add_name(old(state).apps_view(), app@),
        final(state).params == old(state).params,
{
    let name = String::from_str(app);
    let mut i: usize = 0;
    while i < state.apps.len()
        invariant
            name@ == app@,
            i <= state.apps.len(),
            forall|j: int| 0 <= j < i ==> state.apps@[j]@ != app@,
        decreases state.apps.len() - i,
    {
        if state.apps[i] == name {
            assert(state.apps_view()[i as int] == app@);
            return;
        }
        i = i + 1;
    }
    assert(!state.apps_view().contains(app@));
    let ghost before = state.apps_view();
    state.apps.push(name);
    assert(state.apps_view() =~= before.push(app@));
}

/// Appends `line` and a line break to the parameters file.
pub fn add_line(state: &mut InstallState, line: &str)
    ensures
        final(state).params@ == old(state).params@ + line@ + seq!['\n'],
        final(state).apps == old(state).apps,
{
    let mut text = String::from_str(line);
    crate::text::push_char(&mut text, '\n');
    state.params.append(text.as_str());
}

/// Selects the application of one table entry, as `entry_name` says.
fn add_entry(state: &mut InstallState, key: &String, conf: &Option<AppConf>)
    ensures
        final(state).apps_view() == match entry_name(key@, *conf) {
            Some(n) => add_name(old(state).apps_view(), n),
            None => old(state).apps_view(),
        },
        final(state).params == old(state).params,
{
    match conf {
        Some(conf) => {
            match conf.install {
                Some(install) => {
                    if install {
                        match &conf.fullname {
                            Some(fullname) => add_app(state, fullname.as_str()),
                            None => add_app(state, key.as_str()),
                        }
                    }
                },
                None => {
                    match &conf.fullname {
                        Some(fullname) => add_app(state, fullname.as_str()),
                        None => add_app(state, key.as_str()),
                    }
                },
            }
        },
        None => add_app(state, key.as_str()),
    }
}

/// Selects the names one table selects, in table order.
fn add_table(state: &mut InstallState, table: &AppTable)
    ensures
        final(state).apps_view() == add_names(old(state).apps_view(), table_names(table@)),
        final(state).params == old(state).params,
{
    let ghost start = state.apps_view();
    let mut i: usize = 0;
    assert(table@.take(0) =~= Seq::<(String, Option<AppConf>)>::empty());
    while i < table.len()
        invariant
            i <= table.len(),
            state.apps_view() == add_names(start, table_names(table@.take(i as int))),
            state.params == old(state).params,
        decreases table.len() - i,
    {
        let ghost before = table_names(table@.take(i as int));
        assert(table@.take(i + 1).drop_last() =~= table@.take(i as int));
        add_entry(state, &table[i].0, &table[i].1);
        proof {
            let names = table_names(table@.take(i + 1));
            match entry_name(table@[i as int].0@, table@[i as int].1) {
                Some(n) => {
                    assert(names == before.push(n));
                    assert(names.drop_last() =~= before);
                },
                None => {
                    assert(names == before);
                },
            }
        }
        i = i + 1;
    }
    assert(table@.take(table.len() as int) =~= table@);
}

/// Selects the applications of an optional category table.
pub fn check_app_conf(state: &mut InstallState, app: Option<AppTable>)
    ensures
        final(state).apps_view() == add_names(old(state).apps_view(), opt_table_names(app)),
        final(state).params == old(state).params,
{
    if let Some(app) = app {
        add_table(state, &app);
    }
}

/// Goes through the entries of a table and does nothing with them.
pub fn add_app_key(app: Option<AppTable>) {
    if let Some(app) = app {
        let mut i: usize = 0;
        while i < app.len()
            invariant
                i <= app.len(),
            decreases app.len() - i,
        {
            i = i + 1;
        }
    }
}

/// Selects what the `extra` table named `app` of `app_list` selects.
pub fn add_extra(state: &mut InstallState, app_list: AppList, app: &str)
    ensures
        final(state).apps_view() == match app_list.extra {
            Some(extra) => add_group_names(old(state).apps_view(), extra@, app@),
            None => old(state).apps_view(),
        },
        final(state).params == old(state).params,
{
    if let Some(apps) = app_list.extra {
        let ghost start = state.apps_view();
        let mut i: usize = 0;
        assert(apps@.take(0) =~= Seq::<(String, AppTable)>::empty());
        while i < apps.len()
            invariant
                i <= apps.len(),
                state.apps_view() == add_group_names(start, apps@.take(i as int), app@),
                state.params == old(state).params,
            decreases apps.len() - i,
        {
            assert(apps@.take(i + 1).drop_last() =~= apps@.take(i as int));
            if crate::text::str_eq(apps[i].0.as_str(), app) {
                add_table(state, &apps[i].1);
            }
            i = i + 1;
        }
        assert(apps@.take(apps.len() as int) =~= apps@);
    }
}

/// Selects, for each dependency table whose name is already selected, the
/// names that table selects.
pub fn add_extra_deps(state: &mut InstallState, dep_list: Dependency)
    ensures
        final(state).apps_view() == match dep_list.extra {
            Some(extra) => add_dependency_names(old(state).apps_view(), extra@),
            None => old(state).apps_view(),
        },
        dep_list.extra matches Some(extra) ==> forall|i: int, n: Seq<char>|
            #![trigger extra@[i], final(state).apps_view().contains(n)]
            0 <= i < extra@.len() && old(state).apps_view().contains(extra@[i].0@) && table_wants(
                extra@[i].1@,
                n,
            ) ==> final(state).apps_view().contains(n),
        final(state).params == old(state).params,
{
    if let Some(apps) = dep_list.extra {
        let ghost start = state.apps_view();
        let mut i: usize = 0;
        assert(apps@.take(0) =~= Seq::<(String, AppTable)>::empty());
        while i < apps.len()
            invariant
                i <= apps.len(),
                state.apps_view() == add_dependency_names(start, apps@.take(i as int)),
                state.params == old(state).params,
            decreases apps.len() - i,
        {
            assert(apps@.take(i + 1).drop_last() =~= apps@.take(i as int));
            if contains_app(state, &apps[i].0) {
                add_table(state, &apps[i].1);
            }
            i = i + 1;
        }
        assert(apps@.take(apps.len() as int) =~= apps@);
        proof {
            assert forall|i: int, n: Seq<char>|
                #![trigger apps@[i], state.apps_view().contains(n)]
                0 <= i < apps@.len() && start.contains(apps@[i].0@) && table_wants(
                    apps@[i].1@,
                    n,
                ) implies state.apps_view().contains(n) by {
                law_dependency_names_holds(start, apps@, n);
            }
        }
    }
}

/// Whether `name` is selected.
pub fn contains_app(state: &InstallState, name: &String) -> (res: bool)
    ensures
        res == state.apps_view().contains(name@),
{
    let mut i: usize = 0;
    while i < state.apps.len()
        invariant
            i <= state.apps.len(),
            forall|j: int| 0 <= j < i ==> state.apps@[j]@ != name@,
        decreases state.apps.len() - i,
    {
        if state.apps[i] == *name {
            assert(state.apps_view()[i as int] == name@);
            return true;
        }
        i = i + 1;
    }
    false
}

/// Does nothing: installing every group is not implemented.
pub fn install_all() {
}

/// Selects what the category tables of `app_list` select, in the order
/// system, display manager, theming, hyperdots, dependencies, window
/// manager, shell, then what the dependency table selects, then what the
/// dependency `extra` tables add.
pub fn install_from_config(state: &mut InstallState, app_list: AppList, dep_list: Dependency)
    ensures
        final(state).apps_view() == config_selection(old(state).apps_view(), app_list, dep_list),
        forall|n: Seq<char>|
            #![trigger final(state).apps_view().contains(n)]
            configured(app_list, dep_list, n) || old(state).apps_view().contains(n)
                ==> final(state).apps_view().contains(n),
        final(state).params == old(state).params,
{
    let ghost start = state.apps_view();
    let ghost al = app_list;
    let ghost dl = dep_list;
    let AppList {
        system,
        displaymanager,
        extra: _,
        shell,
        windowmanager,
        dependicies,
        theming,
        hyperdots,
    } = app_list;
    let Dependency { dependency, extra } = dep_list;
    check_app_conf(state, system);
    check_app_conf(state, displaymanager);
    check_app_conf(state, theming);
    check_app_conf(state, hyperdots);
    check_app_conf(state, dependicies);
    check_app_conf(state, windowmanager);
    check_app_conf(state, shell);
    check_app_conf(state, dependency);
    proof {
        let n1 = opt_table_names(al.system);
        let n2 = opt_table_names(al.displaymanager);
        let n3 = opt_table_names(al.theming);
        let n4 = opt_table_names(al.hyperdots);
        let n5 = opt_table_names(al.dependicies);
        let n6 = opt_table_names(al.windowmanager);
        let n7 = opt_table_names(al.shell);
        let n8 = opt_table_names(dl.dependency);
        lemma_add_names_append(start, n1, n2);
        lemma_add_names_append(start, n1 + n2, n3);
        lemma_add_names_append(start, n1 + n2 + n3, n4);
        lemma_add_names_append(start, n1 + n2 + n3 + n4, n5);
        lemma_add_names_append(start, n1 + n2 + n3 + n4 + n5, n6);
        lemma_add_names_append(start, n1 + n2 + n3 + n4 + n5 + n6, n7);
        lemma_add_names_append(start, n1 + n2 + n3 + n4 + n5 + n6 + n7, n8);
    }
    add_extra_deps(state, Dependency { dependency: None, extra });
    proof {
        assert(state.apps_view() == config_selection(start, al, dl));
        assert forall|n: Seq<char>|
            #![trigger state.apps_view().contains(n)]
            configured(al, dl, n) || start.contains(n) implies state.apps_view().contains(n) by {
            law_configured_tables_selected(start, al, dl, n);
        }
    }
}

/// Selects what the `extra` table named "application" selects.
pub fn install_applications(state: &mut InstallState, app_list: AppList)
    ensures
        final(state).apps_view() == match app_list.extra {
            Some(extra) => add_group_names(old(state).apps_view(), extra@, "application"@),
            None => old(state).apps_view(),
        },
        final(state).params == old(state).params,
{
    add_extra(state, app_list, "application")
}

/// The parameters-file line that tells whether neovim is to be installed.
pub open spec fn neovim_line(selected: bool) -> Seq<char> {
    if selected {
        "export INSTALL_NEOVIM=\"true\""@
    } else {
        "export INSTALL_NEOVIM=\"false\""@
    }
}

/// Appends to the parameters file whether "neovim" is selected.
pub fn write_to_file(state: &mut InstallState)
    ensures
        final(state).params@ == old(state).params@ + neovim_line(
            old(state).apps_view().contains("neovim"@),
        ) + seq!['\n'],
        final(state).apps == old(state).apps,
{
    let neovim = String::from_str("neovim");
    if contains_app(state, &neovim) {
        add_line(state, "export INSTALL_NEOVIM=\"true\"");
    } else {
        add_line(state, "export INSTALL_NEOVIM=\"false\"");
    }
}

// ---------------------------------------------------------------------------
// Menu groups built from the `extra` tables
// ---------------------------------------------------------------------------

/// No two entries of a table share a key (as in the map it was read from).
pub open spec fn table_wf(t: Seq<(String, Option<AppConf>)>) -> bool {
    forall|i: int, j: int| 0 <= i < j < t.len() ==> t[i].0@ != t[j].0@
}

/// No two tables share a name, and each table is well formed.
pub open spec fn extra_wf(e: Seq<(String, AppTable)>) -> bool {
    &&& forall|i: int, j: int| 0 <= i < j < e.len() ==> e[i].0@ != e[j].0@
    &&& forall|i: int| 0 <= i < e.len() ==> table_wf(#[trigger] e[i].1@)
}

/// The table of `e` named `g`, if any.
pub open spec fn find_table(e: Seq<(String, AppTable)>, g: Seq<char>) -> Option<AppTable>
    decreases e.len(),
{
    if e.len() == 0 {
        None
    } else if e.last().0@ == g {
        Some(e.last().1)
    } else {
        find_table(e.drop_last(), g)
    }
}

/// A table named `g` is found only when `e` has one of that name.
proof fn lemma_find_table_some(e: Seq<(String, AppTable)>, g: Seq<char>)
    ensures
        find_table(e, g) is Some ==> exists|i: int| 0 <= i < e.len() && #[trigger] e[i].0@ == g,
        find_table(e, g) matches Some(t) ==> exists|i: int|
            0 <= i < e.len() && #[trigger] e[i].0@ == g && e[i].1 == t,
    decreases e.len(),
{
    if e.len() > 0 && e.last().0@ != g {
        lemma_find_table_some(e.drop_last(), g);
        if find_table(e.drop_last(), g) is Some {
            let i = choose|i: int|
                0 <= i < e.drop_last().len() && #[trigger] e.drop_last()[i].0@ == g;
            assert(e[i] == e.drop_last()[i]);
        }
        if let Some(t) = find_table(e.drop_last(), g) {
            let i = choose|i: int|
                0 <= i < e.drop_last().len() && #[trigger] e.drop_last()[i].0@ == g
                    && e.drop_last()[i].1 == t;
            assert(e[i] == e.drop_last()[i]);
        }
    } else if e.len() > 0 {
        assert(e[e.len() - 1].0@ == g);
    }
}

/// The optional strings `o` as character sequences.
pub open spec fn opt_view(o: Option<String>) -> Option<Seq<char>> {
    match o {
        Some(s) => Some(s@),
        None => None,
    }
}

/// Whether `a` is the menu application for the entry `key` with
/// configuration `conf`: named `key`, with the version and full name that
/// `conf` gives, and nothing else set.
pub open spec fn is_entry_app(a: App, key: Seq<char>, conf: Option<AppConf>) -> bool {
    &&& a.name@ == key
    &&& a.description is None
    &&& a.position == 0
    &&& a.position_str@.len() == 0
    &&& match conf {
        Some(c) => opt_view(a.version) == opt_view(c.version) && opt_view(a.fullname) == opt_view(
            c.fullname,
        ),
        None => a.version is None && a.fullname is None,
    }
}

/// Whether the applications `bin` are, in order, the menu applications
/// for the entries `t`.
pub open spec fn are_entry_apps(bin: Seq<App>, t: Seq<(String, Option<AppConf>)>) -> bool {
    &&& bin.len() == t.len()
    &&& forall|i: int| 0 <= i < bin.len() ==> is_entry_app(#[trigger] bin[i], t[i].0@, t[i].1)
}

/// Whether an entry is offered in a menu: unless its configuration says
/// not to install it.
pub open spec fn offered(conf: Option<AppConf>) -> bool {
    match conf {
        Some(c) => c.install != Some(false),
        None => true,
    }
}

/// The offered entries of a table, in order.
pub open spec fn offered_entries(t: Seq<(String, Option<AppConf>)>) -> Seq<
    (String, Option<AppConf>),
>
    decreases t.len(),
{
    if t.len() == 0 {
        t
    } else if offered(t.last().1) {
        offered_entries(t.drop_last()).push(t.last())
    } else {
        offered_entries(t.drop_last())
    }
}

/// The keys of the entries of a table that have no configuration.
pub open spec fn unconfigured_keys(t: Seq<(String, Option<AppConf>)>) -> Seq<Seq<char>>
    decreases t.len(),
{
    if t.len() == 0 {
        Seq::empty()
    } else if t.last().1 is None {
        unconfigured_keys(t.drop_last()).push(t.last().0@)
    } else {
        unconfigured_keys(t.drop_last())
    }
}

/// Every key of `offered_entries(t)` is a key of `t`.
proof fn lemma_offered_keys(t: Seq<(String, Option<AppConf>)>, k: Seq<char>)
    requires
        forall|i: int| 0 <= i < t.len() ==> #[trigger] t[i].0@ != k,
    ensures
        forall|i: int| 0 <= i < offered_entries(t).len() ==> #[trigger] offered_entries(t)[i].0@ != k,
    decreases t.len(),
{
    if t.len() > 0 {
        assert forall|i: int| 0 <= i < t.drop_last().len() implies #[trigger] t.drop_last()[i].0@
            != k by {
            assert(t.drop_last()[i] == t[i]);
        }
        lemma_offered_keys(t.drop_last(), k);
        let r = offered_entries(t.drop_last());
        if offered(t.last().1) {
            let o = offered_entries(t);
            assert(o == r.push(t.last()));
            assert forall|i: int| 0 <= i < o.len() implies #[trigger] o[i].0@ != k by {
                if i < r.len() {
                    assert(o[i] == r[i]);
                    assert(r[i].0@ != k);
                } else {
                    assert(o[i] == t.last());
                    assert(t[t.len() - 1].0@ != k);
                }
            }
        } else {
            let o = offered_entries(t);
            assert(o == r);
            assert forall|i: int| 0 <= i < o.len() implies #[trigger] o[i].0@ != k by {
                assert(r[i].0@ != k);
            }
        }
    } else {
        assert(offered_entries(t).len() == 0);
    }
}

/// The menu application for the entry `key` with configuration `conf`.
fn entry_app(key: &String, conf: &Option<AppConf>) -> (res: App)
    ensures
        is_entry_app(res, key@, *conf),
{
    let mut app = App::new(key.as_str());
    match conf {
        Some(conf) => {
            match &conf.fullname {
                Some(f) => app.add_fullname(f.clone()),
                None => {},
            }
            match &conf.version {
                Some(v) => app.add_version(v.clone()),
                None => {},
            }
        },
        None => {},
    }
    app
}

/// Adds the offered entries of `table` to `group` (which holds none of
/// their keys), and selects the entries that have no configuration.
fn add_offered(state: &mut InstallState, group: &mut Group, table: &AppTable)
    requires
        table_wf(table@),
        old(group).wf(),
        forall|i: int, j: int|
            #![trigger old(group).bin@[i], table@[j]]
            0 <= i < old(group).bin@.len() && 0 <= j < table@.len() ==> old(group).bin@[i].name@
                != table@[j].0@,
    ensures
        final(group).wf(),
        *final(group) == (Group { bin: final(group).bin, ..*old(group) }),
        final(group).bin@.subrange(0, old(group).bin@.len() as int) == old(group).bin@,
        are_entry_apps(
            final(group).bin@.subrange(old(group).bin@.len() as int, final(group).bin@.len() as int),
            offered_entries(table@),
        ),
        final(state).apps_view() == add_names(old(state).apps_view(), unconfigured_keys(table@)),
        final(state).params == old(state).params,
{
    let ghost g0 = *group;
    let ghost n0 = group.bin@.len();
    let ghost start = state.apps_view();
    let mut i: usize = 0;
    assert(table@.take(0) =~= Seq::<(String, Option<AppConf>)>::empty());
    while i < table.len()
        invariant
            table_wf(table@),
            i <= table.len(),
            group.wf(),
            *group == (Group { bin: group.bin, ..g0 }),
            n0 <= group.bin@.len(),
            group.bin@.subrange(0, n0 as int) == g0.bin@,
            forall|a: int, j: int|
                #![trigger g0.bin@[a], table@[j]]
                0 <= a < n0 && 0 <= j < table@.len() ==> g0.bin@[a].name@ != table@[j].0@,
            are_entry_apps(
                group.bin@.subrange(n0 as int, group.bin@.len() as int),
                offered_entries(table@.take(i as int)),
            ),
            state.apps_view() == add_names(start, unconfigured_keys(table@.take(i as int))),
            state.params == old(state).params,
        decreases table.len() - i,
    {
        let ghost prefix = table@.take(i as int);
        assert(table@.take(i + 1).drop_last() =~= prefix);
        let key = &table[i].0;
        let conf = &table[i].1;
        proof {
            // the key is new to the group
            assert forall|a: int| 0 <= a < group.bin@.len() implies #[trigger] group.bin@[a].name@
                != key@ by {
                if a < n0 {
                    assert(group.bin@[a] == group.bin@.subrange(0, n0 as int)[a]);
                } else {
                    let off = group.bin@.subrange(n0 as int, group.bin@.len() as int);
                    assert(group.bin@[a] == off[a - n0]);
                    assert forall|j: int| 0 <= j < prefix.len() implies #[trigger] prefix[j].0@
                        != key@ by {
                        assert(prefix[j] == table@[j]);
                    }
                    lemma_offered_keys(prefix, key@);
                }
            }
            assert(!has_app(group.bin@, key@));
        }
        let ghost b0 = group.bin@;
        let ghost s0 = state.apps_view();
        let is_offered = match conf {
            Some(c) => match c.install {
                Some(install) => install,
                None => true,
            },
            None => true,
        };
        if conf.is_none() {
            add_app(state, key.as_str());
            proof {
                lemma_add_names_append(start, unconfigured_keys(prefix), seq![key@]);
                lemma_add_names_single(s0, key@);
                assert(unconfigured_keys(table@.take(i + 1)) =~= unconfigured_keys(prefix) + seq![
                    key@,
                ]);
            }
        } else {
            assert(unconfigured_keys(table@.take(i + 1)) == unconfigured_keys(prefix));
        }
        if is_offered {
            let app = entry_app(key, conf);
            let ghost a = app;
            group.add(app);
            proof {
                assert(group.bin@ == b0.push(a));
                let off0 = b0.subrange(n0 as int, b0.len() as int);
                let off1 = group.bin@.subrange(n0 as int, group.bin@.len() as int);
                assert(off1 =~= off0.push(a));
                assert(group.bin@.subrange(0, n0 as int) =~= b0.subrange(0, n0 as int));
                let oe = offered_entries(table@.take(i + 1));
                assert(oe == offered_entries(prefix).push(table@[i as int]));
                assert forall|x: int| 0 <= x < off1.len() implies is_entry_app(
                    #[trigger] off1[x],
                    oe[x].0@,
                    oe[x].1,
                ) by {
                    if x < off0.len() {
                        assert(off1[x] == off0[x]);
                        assert(oe[x] == offered_entries(prefix)[x]);
                    }
                }
            }
        } else {
            assert(offered_entries(table@.take(i + 1)) == offered_entries(prefix));
        }
        i = i + 1;
    }
    assert(table@.take(table.len() as int) =~= table@);
}

/// The menu group named `g` built from the `extra` table of that name:
/// each offered entry (one whose configuration does not say not to
/// install it) becomes an application with its version and full name.
/// Each entry without a configuration is also selected.
pub fn extra_menu(state: &mut InstallState, app_list: AppList, g: String) -> (res: Group)
    requires
        app_list.extra matches Some(e) ==> extra_wf(e@),
    ensures
        res.wf(),
        res.name matches Some(n) && n@ == g@,
        res.description is None,
        res.default is None,
        res.category is None,
        res.installer is None,
        match app_list.extra {
            Some(e) => match find_table(e@, g@) {
                Some(t) => are_entry_apps(res.bin@, offered_entries(t@))
                    && final(state).apps_view() == add_names(
                    old(state).apps_view(),
                    unconfigured_keys(t@),
                ),
                None => res.bin@.len() == 0 && final(state).apps_view() == old(
                    state,
                ).apps_view(),
            },
            None => res.bin@.len() == 0 && final(state).apps_view() == old(state).apps_view(),
        },
        final(state).params == old(state).params,
{
    let mut group = Group::new_with_name(g.as_str());
    if let Some(apps) = app_list.extra {
        let ghost start = state.apps_view();
        let mut i: usize = 0;
        assert(apps@.take(0) =~= Seq::<(String, AppTable)>::empty());
        while i < apps.len()
            invariant
                extra_wf(apps@),
                i <= apps.len(),
                group.wf(),
                group.name matches Some(n) && n@ == g@,
                group.description is None,
                group.default is None,
                group.category is None,
                group.installer is None,
                match find_table(apps@.take(i as int), g@) {
                    Some(t) => are_entry_apps(group.bin@, offered_entries(t@))
                        && state.apps_view() == add_names(start, unconfigured_keys(t@))
                        && table_wf(t@),
                    None => group.bin@.len() == 0 && state.apps_view() == start,
                },
                state.params == old(state).params,
            decreases apps.len() - i,
        {
            let ghost prefix = apps@.take(i as int);
            assert(apps@.take(i + 1).drop_last() =~= prefix);
            if crate::text::str_eq(apps[i].0.as_str(), g.as_str()) {
                proof {
                    lemma_find_table_some(prefix, g@);
                    if find_table(prefix, g@) is Some {
                        let j = choose|j: int| 0 <= j < prefix.len() && #[trigger] prefix[j].0@ == g@;
                        assert(prefix[j] == apps@[j]);
                    }
                    assert(table_wf(apps@[i as int].1@));
                }
                add_offered(state, &mut group, &apps[i].1);
                proof {
                    let b = group.bin@;
                    assert(b.subrange(0, b.len() as int) =~= b);
                }
            }
            i = i + 1;
        }
        assert(apps@.take(apps.len() as int) =~= apps@);
    }
    group
}

// ---------------------------------------------------------------------------
// Writing out the selection
// ---------------------------------------------------------------------------

/// What `camino::Utf8Path::parent` returns for the path `p`.
pub uninterp spec fn path_parent(p: Seq<char>) -> Option<Seq<char>>;

/// Calls `camino::Utf8Path::parent` on the path `p`. The result is named
/// `path_parent(p@)`; as the crate's documentation shows, the root `/`
/// has no parent.
#[verifier::external_body]
fn utf8_path_parent(p: &str) -> (r: Option<String>)
    ensures
        opt_view(r) == path_parent(p@),
        p@ == seq!['/'] ==> r is None,
{
    match camino::Utf8Path::new(p).parent() {
        Some(q) => Some(q.as_str().to_string()),
        None => None,
    }
}

/// The directory the output file `out` is written into: the parent of the
/// completed path (`./out` when `out` holds no `/`), if it has one.
pub fn install_target(out: String) -> (res: Option<String>)
    ensures
        opt_view(res) == path_parent(crate::utils::complete_path_seq(out@)),
{
    let out = crate::utils::complete_path(out);
    utf8_path_parent(out.as_str())
}

/// The applications of `apps` that are not installed, in order;
/// `installed[i]` tells whether `apps[i]` is.
pub open spec fn pending_seq(apps: Seq<Seq<char>>, installed: Seq<bool>) -> Seq<Seq<char>>
    decreases apps.len(),
{
    if apps.len() == 0 {
        Seq::empty()
    } else {
        let before = pending_seq(apps.drop_last(), installed);
        if installed[apps.len() - 1] {
            before
        } else {
            before.push(apps.last())
        }
    }
}

/// The applications of `apps` that are not installed, in order.
pub fn apps_to_install(apps: &Vec<String>, installed: &Vec<bool>) -> (res: Vec<String>)
    requires
        installed@.len() == apps@.len(),
    ensures
        views(res@) == pending_seq(views(apps@), installed@),
        exists|idx: Seq<int>| #[trigger]
            picks_uninstalled(views(res@), views(apps@), installed@, idx),
{
    let ghost a = views(apps@);
    let mut res: Vec<String> = Vec::new();
    let mut i: usize = 0;
    assert(a.take(0) =~= Seq::<Seq<char>>::empty());
    while i < apps.len()
        invariant
            a == views(apps@),
            installed@.len() == apps@.len(),
            i <= apps.len(),
            views(res@) == pending_seq(a.take(i as int), installed@),
        decreases apps.len() - i,
    {
        assert(a.take(i + 1).drop_last() =~= a.take(i as int));
        let ghost before = views(res@);
        if !installed[i] {
            res.push(apps[i].clone());
            assert(views(res@) =~= before.push(a[i as int]));
        }
        i = i + 1;
    }
    assert(a.take(apps.len() as int) =~= a);
    proof {
        law_apps_to_install(a, installed@);
    }
    res
}

/// Each of `apps` followed by a line break, one after the other.
pub open spec fn app_lines(apps: Seq<Seq<char>>) -> Seq<char>
    decreases apps.len(),
{
    if apps.len() == 0 {
        Seq::empty()
    } else {
        app_lines(apps.drop_last()) + apps.last() + seq!['\n']
    }
}

/// The text of the application file: one application per line.
pub fn app_file_text(apps: &Vec<String>) -> (res: String)
    ensures
        res@ == app_lines(views(apps@)),
{
    let ghost a = views(apps@);
    let mut res = String::new();
    let mut i: usize = 0;
    assert(a.take(0) =~= Seq::<Seq<char>>::empty());
    while i < apps.len()
        invariant
            a == views(apps@),
            i <= apps.len(),
            res@ == app_lines(a.take(i as int)),
        decreases apps.len() - i,
    {
        assert(a.take(i + 1).drop_last() =~= a.take(i as int));
        res.append(apps[i].as_str());
        crate::text::push_char(&mut res, '\n');
        i = i + 1;
    }
    assert(a.take(apps.len() as int) =~= a);
    res
}

/// The positions below `n` whose application is not installed, in order.
pub open spec fn uninstalled_positions(installed: Seq<bool>, n: int) -> Seq<int>
    decreases n,
{
    if n <= 0 {
        Seq::empty()
    } else if installed[n - 1] {
        uninstalled_positions(installed, n - 1)
    } else {
        uninstalled_positions(installed, n - 1).push(n - 1)
    }
}

proof fn lemma_pending_positions(apps: Seq<Seq<char>>, installed: Seq<bool>)
    requires
        installed.len() >= apps.len(),
    ensures
        ({
            let idx = uninstalled_positions(installed, apps.len() as int);
            let r = pending_seq(apps, installed);
            &&& idx.len() == r.len()
            &&& forall|k: int|
                0 <= k < idx.len() ==> 0 <= #[trigger] idx[k] < apps.len() && !installed[idx[k]]
                    && r[k] == apps[idx[k]]
            &&& forall|k: int, l: int| 0 <= k < l < idx.len() ==> idx[k] < idx[l]
            &&& forall|i: int| 0 <= i < apps.len() && !installed[i] ==> idx.contains(i)
        }),
    decreases apps.len(),
{
    if apps.len() > 0 {
        let n = apps.len() as int;
        let d = apps.drop_last();
        lemma_pending_positions(d, installed);
        let idx0 = uninstalled_positions(installed, n - 1);
        let r0 = pending_seq(d, installed);
        let idx = uninstalled_positions(installed, n);
        let r = pending_seq(apps, installed);
        assert forall|k: int| 0 <= k < idx0.len() implies #[trigger] apps[idx0[k]] == r0[k] by {
            assert(d[idx0[k]] == apps[idx0[k]]);
        }
        if installed[n - 1] {
            assert(idx == idx0);
            assert(r == r0);
            assert forall|i: int| 0 <= i < apps.len() && !installed[i] implies idx.contains(i) by {
                assert(i < n - 1);
            }
        } else {
            assert(idx == idx0.push(n - 1));
            assert(r == r0.push(apps[n - 1]));
            assert forall|k: int| 0 <= k < idx.len() implies 0 <= #[trigger] idx[k] < apps.len()
                && !installed[idx[k]] && r[k] == apps[idx[k]] by {
                if k < idx0.len() {
                    assert(idx[k] == idx0[k]);
                    assert(r[k] == r0[k]);
                }
            }
            assert forall|i: int| 0 <= i < apps.len() && !installed[i] implies idx.contains(i) by {
                if i < n - 1 {
                    let k = choose|k: int| 0 <= k < idx0.len() && idx0[k] == i;
                    assert(idx[k] == i);
                } else {
                    assert(idx[idx0.len() as int] == i);
                }
            }
        }
    }
}

/// Whether `r` is `apps[idx[0]], apps[idx[1]], ...` for increasing
/// positions `idx` that are exactly the `i` with `!installed[i]`.
pub open spec fn picks_uninstalled(
    r: Seq<Seq<char>>,
    apps: Seq<Seq<char>>,
    installed: Seq<bool>,
    idx: Seq<int>,
) -> bool {
    &&& idx.len() == r.len()
    &&& forall|k: int|
        0 <= k < idx.len() ==> 0 <= #[trigger] idx[k] < apps.len() && !installed[idx[k]] && r[k]
            == apps[idx[k]]
    &&& forall|k: int, l: int| 0 <= k < l < idx.len() ==> idx[k] < idx[l]
    &&& forall|i: int| 0 <= i < apps.len() && !installed[i] ==> idx.contains(i)
}

/// The applications still to install are the applications whose flag says
/// they are not installed, each read at its own position, in their order:
/// the result is `apps[p0], apps[p1], ...` for the increasing positions
/// `p0 < p1 < ...` that are exactly those `i` with `!installed[i]`.
pub proof fn law_apps_to_install(apps: Seq<Seq<char>>, installed: Seq<bool>)
    requires
        installed.len() == apps.len(),
    ensures
        exists|idx: Seq<int>| #[trigger]
            picks_uninstalled(pending_seq(apps, installed), apps, installed, idx),
{
    lemma_pending_positions(apps, installed);
    let idx = uninstalled_positions(installed, apps.len() as int);
    assert(picks_uninstalled(pending_seq(apps, installed), apps, installed, idx));
}

} // verus!
