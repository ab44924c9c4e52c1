//! Menu groups of applications, and the interactive choice of applications
//! from a group: the prompt that lists a group, and what one answer selects.
use vstd::prelude::*;
use crate::cli::Cli;
use crate::conf::Config;
use crate::installer::{
    add_app, add_name, add_names, lemma_add_names_append, lemma_add_names_single, InstallState,
};
use crate::text::{
    decimal, non_empty, parse_usize, parse_usize_seq, split_char, split_seq, str_eq, to_uppercase,
    trim, trim_all, trim_each, trim_seq, u32_to_string, uppercase, views,
};
use crate::utils::{is_number, is_number_seq};

verus! {

// ---------------------------------------------------------------------------
// Applications
// ---------------------------------------------------------------------------

/// An application offered in a menu.
#[derive(Debug, Clone, PartialEq, Eq)]
pub struct App {
    pub name: String,
    pub version: Option<String>,
    pub description: Option<String>,
    pub fullname: Option<String>,
    pub position: u32,
    pub position_str: String,
}

impl App {
    /// An application called `name`, with nothing else set.
    pub fn new(name: &str) -> (res: App)
        ensures
            res.name@ == name@,
            res.version is None,
            res.description is None,
            res.fullname is None,
            res.position == 0,
            res.position_str@.len() == 0,
    {
        App {
            name: String::from_str(name),
            version: None,
            description: None,
            fullname: None,
            position: 0,
            position_str: String::new(),
        }
    }

    /// Sets the version.
    pub fn add_version(&mut self, version: String)
        ensures
            *final(self) == (App { version: Some(version), ..*old(self) }),
    {
        self.version = Some(version);
    }

    /// Sets the position text.
    pub fn set_position_str(&mut self, position_str: String)
        ensures
            *final(self) == (App { position_str: position_str, ..*old(self) }),
    {
        self.position_str = position_str;
    }

    /// Sets the full package name.
    pub fn add_fullname(&mut self, fullname: String)
        ensures
            *final(self) == (App { fullname: Some(fullname), ..*old(self) }),
    {
        self.fullname = Some(fullname);
    }

    /// Sets the position.
    pub fn set_position(&mut self, position: u32)
        ensures
            *final(self) == (App { position: position, ..*old(self) }),
    {
        self.position = position;
    }

    /// Sets the description.
    pub fn add_description(&mut self, description: String)
        ensures
            *final(self) == (App { description: Some(description), ..*old(self) }),
    {
        self.description = Some(description);
    }

    /// The name under which the application is installed: its full name
    /// when it has one, else its name.
    pub open spec fn install_name(self) -> Seq<char> {
        match self.fullname {
            Some(f) => f@,
            None => self.name@,
        }
    }
}

// ---------------------------------------------------------------------------
// The applications of a group, keyed by name
// ---------------------------------------------------------------------------

/// No two applications of `bin` share a name.
pub open spec fn distinct_names(bin: Seq<App>) -> bool {
    forall|i: int, j: int| 0 <= i < j < bin.len() ==> bin[i].name@ != bin[j].name@
}

/// Whether `bin` holds an application called `name`.
pub open spec fn has_app(bin: Seq<App>, name: Seq<char>) -> bool {
    exists|i: int| 0 <= i < bin.len() && #[trigger] bin[i].name@ == name
}

/// The position in `bin` of the application called `name`.
pub open spec fn app_index(bin: Seq<App>, name: Seq<char>) -> int {
    choose|i: int| 0 <= i < bin.len() && #[trigger] bin[i].name@ == name
}

/// `bin` after inserting `app` by name: it takes the place of the
/// application of the same name, or comes last.
pub open spec fn insert_app(bin: Seq<App>, app: App) -> Seq<App> {
    if has_app(bin, app.name@) {
        bin.update(app_index(bin, app.name@), app)
    } else {
        bin.push(app)
    }
}

/// `bin` without the application called `name`.
pub open spec fn remove_app_named(bin: Seq<App>, name: Seq<char>) -> Seq<App> {
    if has_app(bin, name) {
        bin.remove(app_index(bin, name))
    } else {
        bin
    }
}

/// `bin` as a map from names to applications.
pub open spec fn bin_map(bin: Seq<App>) -> Map<Seq<char>, App> {
    Map::new(|k: Seq<char>| has_app(bin, k), |k: Seq<char>| bin[app_index(bin, k)])
}

/// In a list with distinct names, the application called `name` is at
/// position `i` exactly when position `i` holds that name.
proof fn lemma_index_unique(bin: Seq<App>, i: int)
    requires
        distinct_names(bin),
        0 <= i < bin.len(),
    ensures
        has_app(bin, bin[i].name@),
        app_index(bin, bin[i].name@) == i,
{
    let k = app_index(bin, bin[i].name@);
    assert(has_app(bin, bin[i].name@));
    if k != i {
        if k < i {
            assert(bin[k].name@ != bin[i].name@);
        } else {
            assert(bin[i].name@ != bin[k].name@);
        }
    }
}

/// Finds the position of the application called `name`.
fn find_app(bin: &Vec<App>, name: &String) -> (res: Option<usize>)
    requires
        distinct_names(bin@),
    ensures
        match res {
            Some(i) => has_app(bin@, name@) && i == app_index(bin@, name@) && i < bin@.len(),
            None => !has_app(bin@, name@),
        },
{
    let mut i: usize = 0;
    while i < bin.len()
        invariant
            distinct_names(bin@),
            i <= bin.len(),
            forall|j: int| 0 <= j < i ==> bin@[j].name@ != name@,
        decreases bin.len() - i,
    {
        if bin[i].name == *name {
            proof {
                lemma_index_unique(bin@, i as int);
            }
            return Some(i);
        }
        i = i + 1;
    }
    None
}

/// Inserting by name keeps the names distinct.
proof fn lemma_insert_distinct(bin: Seq<App>, app: App)
    requires
        distinct_names(bin),
    ensures
        distinct_names(insert_app(bin, app)),
        has_app(insert_app(bin, app), app.name@),
{
    let r = insert_app(bin, app);
    if has_app(bin, app.name@) {
        let k = app_index(bin, app.name@);
        assert forall|i: int, j: int| 0 <= i < j < r.len() implies r[i].name@ != r[j].name@ by {
            if i == k {
                assert(bin[k].name@ == app.name@);
            } else if j == k {
                assert(bin[k].name@ == app.name@);
            }
        }
        assert(r[k].name@ == app.name@);
    } else {
        assert forall|i: int, j: int| 0 <= i < j < r.len() implies r[i].name@ != r[j].name@ by {
            if j == bin.len() {
                assert(bin[i].name@ != app.name@);
            }
        }
        assert(r[bin.len() as int].name@ == app.name@);
    }
}

/// Removing by name keeps the names distinct.
proof fn lemma_remove_distinct(bin: Seq<App>, name: Seq<char>)
    requires
        distinct_names(bin),
    ensures
        distinct_names(remove_app_named(bin, name)),
        !has_app(remove_app_named(bin, name), name),
{
    let r = remove_app_named(bin, name);
    if has_app(bin, name) {
        let k = app_index(bin, name);
        assert forall|i: int, j: int| 0 <= i < j < r.len() implies r[i].name@ != r[j].name@ by {
            let bi = if i < k { i } else { i + 1 };
            let bj = if j < k { j } else { j + 1 };
            assert(r[i] == bin[bi]);
            assert(r[j] == bin[bj]);
        }
        if has_app(r, name) {
            let m = choose|m: int| 0 <= m < r.len() && #[trigger] r[m].name@ == name;
            let bm = if m < k { m } else { m + 1 };
            assert(r[m] == bin[bm]);
            assert(bin[k].name@ == name);
        }
    }
}

/// Group applications behave as a map from names: after inserting `app`,
/// looking up its name gives `app`, and every other name gives what it
/// gave before.
pub proof fn law_insert_lookup(bin: Seq<App>, app: App)
    requires
        distinct_names(bin),
    ensures
        bin_map(insert_app(bin, app)) == bin_map(bin).insert(app.name@, app),
{
    let r = insert_app(bin, app);
    lemma_insert_distinct(bin, app);
    let m = bin_map(bin).insert(app.name@, app);
    assert forall|k: Seq<char>| #[trigger] bin_map(r).contains_key(k) <==> m.contains_key(k) by {
        if has_app(bin, k) {
            let i = app_index(bin, k);
            if k != app.name@ {
                if has_app(bin, app.name@) {
                    let a = app_index(bin, app.name@);
                    assert(i != a);
                    assert(r[i].name@ == k);
                } else {
                    assert(r[i].name@ == k);
                }
            }
        }
        if has_app(r, k) && k != app.name@ {
            let i = app_index(r, k);
            if has_app(bin, app.name@) {
                let a = app_index(bin, app.name@);
                assert(i != a);
                assert(bin[i].name@ == k);
            } else {
                assert(i < bin.len());
                assert(bin[i].name@ == k);
            }
        }
    }
    assert forall|k: Seq<char>| #[trigger] bin_map(r).contains_key(k) implies bin_map(r)[k]
        == m[k] by {
        let i = app_index(r, k);
        lemma_index_unique(r, i);
        if k == app.name@ {
            if has_app(bin, app.name@) {
                let a = app_index(bin, app.name@);
                assert(r[a].name@ == k);
                lemma_index_unique(r, a);
            } else {
                assert(r[bin.len() as int].name@ == k);
                lemma_index_unique(r, bin.len() as int);
            }
        } else {
            let b = app_index(bin, k);
            assert(has_app(bin, k));
            lemma_index_unique(bin, b);
            assert(r[b] == bin[b]) by {
                if has_app(bin, app.name@) {
                    assert(b != app_index(bin, app.name@));
                }
            }
            lemma_index_unique(r, b);
        }
    }
    assert(bin_map(r) =~= m);
}

/// After removing the application called `name`, looking it up finds
/// nothing, and every other name gives what it gave before.
pub proof fn law_remove_lookup(bin: Seq<App>, name: Seq<char>)
    requires
        distinct_names(bin),
    ensures
        bin_map(remove_app_named(bin, name)) == bin_map(bin).remove(name),
{
    let r = remove_app_named(bin, name);
    lemma_remove_distinct(bin, name);
    let m = bin_map(bin).remove(name);
    if has_app(bin, name) {
        let a = app_index(bin, name);
        assert forall|k: Seq<char>| #[trigger] bin_map(r).contains_key(k) <==> m.contains_key(k) by {
            if has_app(bin, k) && k != name {
                let i = app_index(bin, k);
                assert(i != a);
                let ri = if i < a { i } else { i - 1 };
                assert(r[ri] == bin[i]);
            }
            if has_app(r, k) {
                let i = app_index(r, k);
                let bi = if i < a { i } else { i + 1 };
                assert(r[i] == bin[bi]);
            }
        }
        assert forall|k: Seq<char>| #[trigger] bin_map(r).contains_key(k) implies bin_map(r)[k]
            == m[k] by {
            let i = app_index(r, k);
            let bi = if i < a { i } else { i + 1 };
            assert(r[i] == bin[bi]);
            lemma_index_unique(r, i);
            lemma_index_unique(bin, bi);
        }
        assert(bin_map(r) =~= m);
    } else {
        assert(bin_map(r) =~= m);
    }
}

/// Inserts `app` by name into `bin`.
fn insert_app_exec(bin: &mut Vec<App>, app: App)
    requires
        distinct_names(old(bin)@),
    ensures
        final(bin)@ == insert_app(old(bin)@, app),
        distinct_names(final(bin)@),
{
    proof {
        lemma_insert_distinct(bin@, app);
    }
    match find_app(bin, &app.name) {
        Some(i) => {
            bin.set(i, app);
        },
        None => {
            bin.push(app);
        },
    }
}

/// Removes the application called `name` from `bin`.
fn remove_app_exec(bin: &mut Vec<App>, name: &String)
    requires
        distinct_names(old(bin)@),
    ensures
        final(bin)@ == remove_app_named(old(bin)@, name@),
        distinct_names(final(bin)@),
{
    proof {
        lemma_remove_distinct(bin@, name@);
    }
    match find_app(bin, name) {
        Some(i) => {
            bin.remove(i);
        },
        None => {},
    }
}

// ---------------------------------------------------------------------------
// Groups
// ---------------------------------------------------------------------------

/// A named group of applications, one of which may be the default.
#[derive(Debug, Clone, PartialEq, Eq)]
pub struct Group {
    pub name: Option<String>,
    pub bin: Vec<App>,
    pub description: Option<String>,
    pub default: Option<App>,
    pub category: Option<String>,
    pub installer: Option<String>,
}

impl Group {
    /// The applications of the group have distinct names.
    pub open spec fn wf(&self) -> bool {
        distinct_names(self.bin@)
    }

    /// A group with nothing set and no application.
    pub fn new() -> (res: Group)
        ensures
            res.name is None,
            res.bin@.len() == 0,
            res.description is None,
            res.default is None,
            res.category is None,
            res.installer is None,
            res.wf(),
    {
        Group {
            name: None,
            bin: Vec::new(),
            description: None,
            default: None,
            category: None,
            installer: None,
        }
    }

    /// An empty group called `name`.
    pub fn new_with_name(name: &str) -> (res: Group)
        ensures
            res.name matches Some(n) && n@ == name@,
            res.bin@.len() == 0,
            res.description is None,
            res.default is None,
            res.category is None,
            res.installer is None,
            res.wf(),
    {
        Group {
            name: Some(String::from_str(name)),
            bin: Vec::new(),
            description: None,
            default: None,
            category: None,
            installer: None,
        }
    }

    /// An empty group called `name` in category `category`.
    pub fn new_with_name_and_category(name: &str, category: &str) -> (res: Group)
        ensures
            res.name matches Some(n) && n@ == name@,
            res.bin@.len() == 0,
            res.description is None,
            res.default is None,
            res.category matches Some(c) && c@ == category@,
            res.installer is None,
            res.wf(),
    {
        Group {
            name: Some(String::from_str(name)),
            bin: Vec::new(),
            description: None,
            default: None,
            category: Some(String::from_str(category)),
            installer: None,
        }
    }

    /// An empty, unnamed group in category `category`.
    pub fn new_with_category(category: String) -> (res: Group)
        ensures
            res.name is None,
            res.bin@.len() == 0,
            res.description is None,
            res.default is None,
            res.category == Some(category),
            res.installer is None,
            res.wf(),
    {
        Group {
            name: None,
            bin: Vec::new(),
            description: None,
            default: None,
            category: Some(category),
            installer: None,
        }
    }

    /// Sets the installer.
    pub fn set_installer(&mut self, installer: String)
        ensures
            *final(self) == (Group { installer: Some(installer), ..*old(self) }),
    {
        self.installer = Some(installer);
    }

    /// Adds `app`, in place of any application of the same name.
    pub fn add(&mut self, app: App)
        requires
            old(self).wf(),
        ensures
            final(self).wf(),
            *final(self) == (Group { bin: final(self).bin, ..*old(self) }),
            final(self).bin@ == insert_app(old(self).bin@, app),
    {
        insert_app_exec(&mut self.bin, app);
    }

    /// Makes `app` the default, and takes any application of its name out
    /// of the group's applications.
    pub fn add_default(&mut self, app: App)
        requires
            old(self).wf(),
        ensures
            final(self).wf(),
            *final(self) == (Group { bin: final(self).bin, default: Some(app), ..*old(self) }),
            final(self).bin@ == remove_app_named(old(self).bin@, app.name@),
    {
        let name = app.name.clone();
        self.default = Some(app);
        remove_app_exec(&mut self.bin, &name);
    }

    /// Adds a new application called `name`, in place of any of that name.
    pub fn add_app(&mut self, name: &str)
        requires
            old(self).wf(),
        ensures
            final(self).wf(),
            *final(self) == (Group { bin: final(self).bin, ..*old(self) }),
            exists|app: App|
                app.name@ == name@ && app.version is None && app.description is None
                    && app.fullname is None && app.position == 0 && app.position_str@.len() == 0
                    && final(self).bin@ == insert_app(old(self).bin@, app),
    {
        let app = App::new(name);
        let ghost a = app;
        insert_app_exec(&mut self.bin, app);
        assert(a.name@ == name@ && final(self).bin@ == insert_app(old(self).bin@, a));
    }

    /// Takes the application called `name` out of the group.
    pub fn remove_app(&mut self, name: &str)
        requires
            old(self).wf(),
        ensures
            final(self).wf(),
            *final(self) == (Group { bin: final(self).bin, ..*old(self) }),
            final(self).bin@ == remove_app_named(old(self).bin@, name@),
    {
        let name = String::from_str(name);
        remove_app_exec(&mut self.bin, &name);
    }

    /// Sets the description.
    pub fn add_description(&mut self, description: String)
        ensures
            *final(self) == (Group { description: Some(description), ..*old(self) }),
    {
        self.description = Some(description);
    }

    /// Sets the name.
    pub fn add_name(&mut self, group: &str)
        ensures
            final(self).name matches Some(n) && n@ == group@,
            *final(self) == (Group { name: final(self).name, ..*old(self) }),
    {
        self.name = Some(String::from_str(group));
    }
}

// ---------------------------------------------------------------------------
// Menu entries and lines
// ---------------------------------------------------------------------------

/// The groups of a menu, in the order they were added.
#[derive(Debug, Clone, PartialEq, Eq)]
pub struct MenuEntry {
    pub groups: Vec<Group>,
}

impl MenuEntry {
    /// An entry with no group.
    pub fn new() -> (res: MenuEntry)
        ensures
            res.groups@.len() == 0,
    {
        MenuEntry { groups: Vec::new() }
    }

    /// Appends `group`.
    pub fn add(&mut self, group: Group)
        ensures
            final(self).groups@ == old(self).groups@.push(group),
    {
        self.groups.push(group);
    }
}

/// One line of a menu listing.
#[derive(Debug, Clone, PartialEq, Eq)]
pub struct Line {
    pub text: String,
    pub app: App,
    pub position: i32,
}

impl Line {
    /// The line `text` for `app` at `position`.
    pub fn new(text: String, app: App, position: i32) -> (res: Line)
        ensures
            res == (Line { text: text, app: app, position: position }),
    {
        Line { text, app, position }
    }
}

// ---------------------------------------------------------------------------
// Lists keyed by name
// ---------------------------------------------------------------------------

/// The pairs of `s` with their keys as character sequences.
pub open spec fn key_view<T>(s: Seq<(String, T)>) -> Seq<(Seq<char>, T)> {
    s.map_values(|p: (String, T)| (p.0@, p.1))
}

/// No two pairs of `s` share a key.
pub open spec fn distinct_keys<T>(s: Seq<(Seq<char>, T)>) -> bool {
    forall|i: int, j: int| 0 <= i < j < s.len() ==> s[i].0 != s[j].0
}

/// Whether `s` has a pair with key `k`.
pub open spec fn has_key<T>(s: Seq<(Seq<char>, T)>, k: Seq<char>) -> bool {
    exists|i: int| 0 <= i < s.len() && #[trigger] s[i].0 == k
}

/// The position of the pair with key `k`.
pub open spec fn key_index<T>(s: Seq<(Seq<char>, T)>, k: Seq<char>) -> int {
    choose|i: int| 0 <= i < s.len() && #[trigger] s[i].0 == k
}

/// `s` after mapping `k` to `v`: in place of the pair with key `k`, or last.
pub open spec fn insert_kv<T>(s: Seq<(Seq<char>, T)>, k: Seq<char>, v: T) -> Seq<(Seq<char>, T)> {
    if has_key(s, k) {
        s.update(key_index(s, k), (k, v))
    } else {
        s.push((k, v))
    }
}

/// `s` without the pair with key `k`.
pub open spec fn remove_kv<T>(s: Seq<(Seq<char>, T)>, k: Seq<char>) -> Seq<(Seq<char>, T)> {
    if has_key(s, k) {
        s.remove(key_index(s, k))
    } else {
        s
    }
}

proof fn lemma_key_index_unique<T>(s: Seq<(Seq<char>, T)>, i: int)
    requires
        distinct_keys(s),
        0 <= i < s.len(),
    ensures
        has_key(s, s[i].0),
        key_index(s, s[i].0) == i,
{
    let k = key_index(s, s[i].0);
    assert(has_key(s, s[i].0));
    if k != i {
        if k < i {
            assert(s[k].0 != s[i].0);
        } else {
            assert(s[i].0 != s[k].0);
        }
    }
}

/// The pairs of `s` as a map from keys to values.
pub open spec fn kv_map<T>(s: Seq<(Seq<char>, T)>) -> Map<Seq<char>, T> {
    Map::new(|k: Seq<char>| has_key(s, k), |k: Seq<char>| s[key_index(s, k)].1)
}

proof fn lemma_insert_kv_distinct<T>(s: Seq<(Seq<char>, T)>, k: Seq<char>, v: T)
    requires
        distinct_keys(s),
    ensures
        distinct_keys(insert_kv(s, k, v)),
{
    let r = insert_kv(s, k, v);
    if has_key(s, k) {
        let a = key_index(s, k);
        assert forall|i: int, j: int| 0 <= i < j < r.len() implies r[i].0 != r[j].0 by {
            assert(s[a].0 == k);
        }
    } else {
        assert forall|i: int, j: int| 0 <= i < j < r.len() implies r[i].0 != r[j].0 by {
            if j == s.len() {
                assert(s[i].0 != k);
            }
        }
    }
}

proof fn lemma_remove_kv_distinct<T>(s: Seq<(Seq<char>, T)>, k: Seq<char>)
    requires
        distinct_keys(s),
    ensures
        distinct_keys(remove_kv(s, k)),
        !has_key(remove_kv(s, k), k),
{
    let r = remove_kv(s, k);
    if has_key(s, k) {
        let a = key_index(s, k);
        assert forall|i: int, j: int| 0 <= i < j < r.len() implies r[i].0 != r[j].0 by {
            let bi = if i < a { i } else { i + 1 };
            let bj = if j < a { j } else { j + 1 };
            assert(r[i] == s[bi]);
            assert(r[j] == s[bj]);
        }
        if has_key(r, k) {
            let m = choose|m: int| 0 <= m < r.len() && #[trigger] r[m].0 == k;
            let bm = if m < a { m } else { m + 1 };
            assert(r[m] == s[bm]);
            assert(s[a].0 == k);
        }
    }
}

/// A keyed list behaves as a map: after mapping `k` to `v`, looking up `k`
/// gives `v` (in place of any earlier value), and every other key gives
/// what it gave before.
pub proof fn law_insert_kv_lookup<T>(s: Seq<(Seq<char>, T)>, k: Seq<char>, v: T)
    requires
        distinct_keys(s),
    ensures
        kv_map(insert_kv(s, k, v)) == kv_map(s).insert(k, v),
{
    let r = insert_kv(s, k, v);
    lemma_insert_kv_distinct(s, k, v);
    let m = kv_map(s).insert(k, v);
    assert forall|x: Seq<char>| #[trigger] kv_map(r).contains_key(x) <==> m.contains_key(x) by {
        if has_key(s, x) && x != k {
            let i = key_index(s, x);
            if has_key(s, k) {
                assert(i != key_index(s, k));
            }
            assert(r[i].0 == x);
        }
        if x == k {
            if has_key(s, k) {
                assert(r[key_index(s, k)].0 == k);
            } else {
                assert(r[s.len() as int].0 == k);
            }
        }
        if has_key(r, x) && x != k {
            let i = key_index(r, x);
            if has_key(s, k) {
                assert(i != key_index(s, k));
            }
            assert(s[i].0 == x);
        }
    }
    assert forall|x: Seq<char>| #[trigger] kv_map(r).contains_key(x) implies kv_map(r)[x] == m[x] by {
        let i = key_index(r, x);
        lemma_key_index_unique(r, i);
        if x == k {
            if has_key(s, k) {
                let a = key_index(s, k);
                assert(r[a].0 == k);
                lemma_key_index_unique(r, a);
            } else {
                assert(r[s.len() as int].0 == k);
                lemma_key_index_unique(r, s.len() as int);
            }
        } else {
            let b = key_index(s, x);
            assert(has_key(s, x));
            lemma_key_index_unique(s, b);
            assert(r[b] == s[b]) by {
                if has_key(s, k) {
                    assert(b != key_index(s, k));
                }
            }
            lemma_key_index_unique(r, b);
        }
    }
    assert(kv_map(r) =~= m);
}

/// After removing key `k`, looking it up finds nothing, and every other key
/// gives what it gave before.
pub proof fn law_remove_kv_lookup<T>(s: Seq<(Seq<char>, T)>, k: Seq<char>)
    requires
        distinct_keys(s),
    ensures
        kv_map(remove_kv(s, k)) == kv_map(s).remove(k),
{
    let r = remove_kv(s, k);
    lemma_remove_kv_distinct(s, k);
    let m = kv_map(s).remove(k);
    if has_key(s, k) {
        let a = key_index(s, k);
        assert forall|x: Seq<char>| #[trigger] kv_map(r).contains_key(x) <==> m.contains_key(x) by {
            if has_key(s, x) && x != k {
                let i = key_index(s, x);
                assert(i != a);
                let ri = if i < a { i } else { i - 1 };
                assert(r[ri] == s[i]);
            }
            if has_key(r, x) {
                let i = key_index(r, x);
                let bi = if i < a { i } else { i + 1 };
                assert(r[i] == s[bi]);
            }
        }
        assert forall|x: Seq<char>| #[trigger] kv_map(r).contains_key(x) implies kv_map(r)[x]
            == m[x] by {
            let i = key_index(r, x);
            let bi = if i < a { i } else { i + 1 };
            assert(r[i] == s[bi]);
            lemma_key_index_unique(r, i);
            lemma_key_index_unique(s, bi);
        }
        assert(kv_map(r) =~= m);
    } else {
        assert(kv_map(r) =~= m);
    }
}

/// Finds the position of the pair with key `k`.
fn find_key<T>(v: &Vec<(String, T)>, k: &String) -> (res: Option<usize>)
    requires
        distinct_keys(key_view(v@)),
    ensures
        match res {
            Some(i) => has_key(key_view(v@), k@) && i == key_index(key_view(v@), k@) && i
                < v@.len(),
            None => !has_key(key_view(v@), k@),
        },
{
    let ghost kv = key_view(v@);
    let mut i: usize = 0;
    while i < v.len()
        invariant
            kv == key_view(v@),
            distinct_keys(kv),
            i <= v.len(),
            forall|j: int| 0 <= j < i ==> kv[j].0 != k@,
        decreases v.len() - i,
    {
        if v[i].0 == *k {
            proof {
                assert(kv[i as int].0 == k@);
                lemma_key_index_unique(kv, i as int);
            }
            return Some(i);
        }
        i = i + 1;
    }
    None
}

/// Maps `k` to `value` in `v`.
fn insert_keyed<T>(v: &mut Vec<(String, T)>, k: String, value: T)
    requires
        distinct_keys(key_view(old(v)@)),
    ensures
        key_view(final(v)@) == insert_kv(key_view(old(v)@), k@, value),
        distinct_keys(key_view(final(v)@)),
{
    let ghost kv = key_view(v@);
    let ghost kk = k@;
    match find_key(v, &k) {
        Some(i) => {
            let ghost vi = v@[i as int];
            v.set(i, (k, value));
            proof {
                assert(key_view(v@) =~= kv.update(i as int, (kk, value)));
                assert forall|a: int, b: int|
                    0 <= a < b < key_view(v@).len() implies key_view(v@)[a].0 != key_view(
                    v@,
                )[b].0 by {
                    assert(kv[i as int].0 == kk);
                }
            }
        },
        None => {
            v.push((k, value));
            proof {
                assert(key_view(v@) =~= kv.push((kk, value)));
                assert forall|a: int, b: int|
                    0 <= a < b < key_view(v@).len() implies key_view(v@)[a].0 != key_view(
                    v@,
                )[b].0 by {
                    if b == kv.len() {
                        assert(kv[a].0 != kk);
                    }
                }
            }
        },
    }
}

/// Takes the pair with key `k` out of `v`.
fn remove_keyed<T>(v: &mut Vec<(String, T)>, k: &String)
    requires
        distinct_keys(key_view(old(v)@)),
    ensures
        key_view(final(v)@) == remove_kv(key_view(old(v)@), k@),
        distinct_keys(key_view(final(v)@)),
{
    let ghost kv = key_view(v@);
    match find_key(v, k) {
        Some(i) => {
            v.remove(i);
            proof {
                assert(key_view(v@) =~= kv.remove(i as int));
                let r = key_view(v@);
                assert forall|a: int, b: int| 0 <= a < b < r.len() implies r[a].0 != r[b].0 by {
                    let ba = if a < i { a } else { a + 1 };
                    let bb = if b < i { b } else { b + 1 };
                    assert(r[a] == kv[ba]);
                    assert(r[b] == kv[bb]);
                }
            }
        },
        None => {},
    }
}

// ---------------------------------------------------------------------------
// Menus
// ---------------------------------------------------------------------------

/// A menu: its groups keyed by name, its configuration, and the groups of
/// its entry.
#[derive(Debug, Clone, PartialEq, Eq)]
pub struct Menu {
    pub groups: Vec<(String, Group)>,
    pub config: Option<Config>,
    pub menu_entry: Option<MenuEntry>,
}

/// The key under which a group is kept in a menu: its name, or the empty
/// string for an unnamed group.
pub open spec fn group_key(group: Group) -> Seq<char> {
    match group.name {
        Some(n) => n@,
        None => Seq::empty(),
    }
}

/// Whether `g` is the group that `Group::new_with_name(name)` makes.
pub open spec fn is_new_named_group(g: Group, name: Seq<char>) -> bool {
    &&& g.name matches Some(n) && n@ == name
    &&& g.bin@.len() == 0
    &&& g.description is None
    &&& g.default is None
    &&& g.category is None
    &&& g.installer is None
}

impl Menu {
    /// The groups of the menu have distinct keys.
    pub open spec fn wf(&self) -> bool {
        distinct_keys(key_view(self.groups@))
    }

    /// A menu with no group, configuration or entry.
    pub fn new() -> (res: Menu)
        ensures
            res.groups@.len() == 0,
            res.config is None,
            res.menu_entry is None,
            res.wf(),
    {
        Menu { groups: Vec::new(), config: None, menu_entry: None }
    }

    /// A menu with no group or entry, and the configuration `config`.
    pub fn new_with_config(config: Config) -> (res: Menu)
        ensures
            res.groups@.len() == 0,
            res.config == Some(config),
            res.menu_entry is None,
            res.wf(),
    {
        Menu { groups: Vec::new(), config: Some(config), menu_entry: None }
    }

    /// Sets the entry.
    pub fn add_menu_entry(&mut self, menu_entry: MenuEntry)
        ensures
            *final(self) == (Menu { menu_entry: Some(menu_entry), ..*old(self) }),
    {
        self.menu_entry = Some(menu_entry);
    }

    /// Sets the configuration.
    pub fn add_config(&mut self, config: Config)
        ensures
            *final(self) == (Menu { config: Some(config), ..*old(self) }),
    {
        self.config = Some(config);
    }

    /// Appends `group` to the entry when there is one; when there is none,
    /// the menu gets an empty entry and `group` is not kept.
    pub fn add(&mut self, group: Group)
        ensures
            final(self).groups == old(self).groups,
            final(self).config == old(self).config,
            match old(self).menu_entry {
                Some(e) => final(self).menu_entry matches Some(f) && f.groups@ == e.groups@.push(
                    group,
                ),
                None => final(self).menu_entry matches Some(f) && f.groups@.len() == 0,
            },
    {
        match &mut self.menu_entry {
            Some(menu_entry) => {
                menu_entry.add(group);
            },
            None => {
                self.menu_entry = Some(MenuEntry::new());
            },
        }
    }

    /// Keeps `group` under its name (the empty string for an unnamed
    /// group), in place of any group kept under that key.
    pub fn add_group(&mut self, group: Group)
        requires
            old(self).wf(),
        ensures
            final(self).wf(),
            key_view(final(self).groups@) == insert_kv(
                key_view(old(self).groups@),
                group_key(group),
                group,
            ),
            kv_map(key_view(final(self).groups@)) == kv_map(key_view(old(self).groups@)).insert(
                group_key(group),
                group,
            ),
            final(self).config == old(self).config,
            final(self).menu_entry == old(self).menu_entry,
    {
        proof {
            law_insert_kv_lookup(key_view(self.groups@), group_key(group), group);
        }
        let key = match &group.name {
            Some(n) => n.clone(),
            None => String::new(),
        };
        insert_keyed(&mut self.groups, key, group);
    }

    /// Takes the group kept under `group` out of the menu.
    pub fn remove_group(&mut self, group: &str)
        requires
            old(self).wf(),
        ensures
            final(self).wf(),
            key_view(final(self).groups@) == remove_kv(key_view(old(self).groups@), group@),
            kv_map(key_view(final(self).groups@)) == kv_map(key_view(old(self).groups@)).remove(
                group@,
            ),
            final(self).config == old(self).config,
            final(self).menu_entry == old(self).menu_entry,
    {
        proof {
            law_remove_kv_lookup(key_view(self.groups@), group@);
        }
        let key = String::from_str(group);
        remove_keyed(&mut self.groups, &key);
    }

    /// Keeps a new empty group called `name` under `name`.
    pub fn new_group(&mut self, name: &str)
        requires
            old(self).wf(),
        ensures
            final(self).wf(),
            exists|g: Group|
                is_new_named_group(g, name@) && key_view(final(self).groups@) == insert_kv(
                    key_view(old(self).groups@),
                    name@,
                    g,
                ),
            final(self).config == old(self).config,
            final(self).menu_entry == old(self).menu_entry,
    {
        self.new_group_with_name(name)
    }

    /// Keeps a new empty group called `name` under `name`.
    pub fn new_group_with_name(&mut self, name: &str)
        requires
            old(self).wf(),
        ensures
            final(self).wf(),
            exists|g: Group|
                is_new_named_group(g, name@) && key_view(final(self).groups@) == insert_kv(
                    key_view(old(self).groups@),
                    name@,
                    g,
                ),
            final(self).config == old(self).config,
            final(self).menu_entry == old(self).menu_entry,
    {
        let g = Group::new_with_name(name);
        let ghost gg = g;
        insert_keyed(&mut self.groups, String::from_str(name), g);
        assert(is_new_named_group(gg, name@));
    }

    /// Does nothing: the line editor needs no configuration.
    pub fn editor_config(&mut self)
        ensures
            *final(self) == *old(self),
    {
    }
}

// ---------------------------------------------------------------------------
// Choosing applications from a group
// ---------------------------------------------------------------------------

/// The listing of `bin[0..n]` as a menu shows it after the default: each
/// application as `<position>. <name>, `, positions counting from 2.
pub open spec fn items_text(bin: Seq<App>, n: nat) -> Seq<char>
    decreases n,
{
    if n == 0 {
        Seq::empty()
    } else {
        items_text(bin, (n - 1) as nat) + decimal(n + 1) + ". "@ + bin[n - 1].name@ + ", "@
    }
}

/// The menu line for a group whose default is called `default_name` and
/// whose other applications are `bin`: the default as `1.`, the others as
/// `items_text` gives them (without the last separator), and the default's
/// position.
pub open spec fn listing_seq(default_name: Seq<char>, bin: Seq<App>) -> Seq<char> {
    let items = items_text(bin, bin.len());
    "1. "@ + default_name + ", "@ + items.take(items.len() - 2) + " | "@ + "Default: 1."@
}

/// Whether a group can be offered: it has a default, at least one other
/// application, and few enough applications to number them in a `u32`.
pub open spec fn can_enter_spec(group: Group) -> bool {
    &&& group.wf()
    &&& group.default is Some
    &&& remove_app_named(group.bin@, group.default.unwrap().name@).len() >= 1
    &&& group.bin@.len() + 2 <= u32::MAX
}

/// A group as offered for a choice, with what the menu shows of it.
#[derive(Debug, Clone, PartialEq, Eq)]
pub struct EntryPrompt {
    /// The group, with its default taken out of its applications.
    pub group: Group,
    /// `positions[i]` is the number under which `group.bin[i]` is offered.
    pub positions: Vec<String>,
    /// The group's name in upper case.
    pub header: Option<String>,
    /// The menu line.
    pub listing: String,
}

impl EntryPrompt {
    /// The prompt offers a group with a default, and numbers its other
    /// applications from 2.
    pub open spec fn wf(&self) -> bool {
        &&& self.group.wf()
        &&& self.group.default is Some
        &&& self.positions@.len() == self.group.bin@.len()
        &&& forall|i: int|
            0 <= i < self.positions@.len() ==> #[trigger] self.positions@[i]@ == decimal(
                (i + 2) as nat,
            )
    }

    /// The default application.
    pub open spec fn default_app(&self) -> App {
        self.group.default.unwrap()
    }
}

/// The words of an answer: when it holds a space, the pieces between
/// spaces; otherwise the pieces between commas of the trimmed answer (when
/// it holds a comma) followed by the whole answer. Every piece is trimmed,
/// and empty pieces are dropped.
pub open spec fn answer_tokens_seq(line: Seq<char>) -> Seq<Seq<char>> {
    let by_comma = if line.contains(',') {
        trim_all(split_seq(trim_seq(line), ','))
    } else {
        Seq::empty()
    };
    let pieces = if line.contains(' ') {
        trim_all(split_seq(line, ' '))
    } else {
        by_comma.push(line)
    };
    non_empty(pieces)
}

/// The words of the answer `line`.
pub fn answer_tokens(line: &str) -> (res: Vec<String>)
    ensures
        views(res@) == answer_tokens_seq(line@),
        forall|i: int| 0 <= i < res@.len() ==> #[trigger] res@[i]@.len() > 0,
{
    let mut pieces: Vec<String> = Vec::new();
    if crate::text::contains_char(line, ',') {
        let trimmed = trim(line);
        let split = split_char(trimmed.as_str(), ',');
        pieces = trim_each(&split);
    }
    if crate::text::contains_char(line, ' ') {
        let split = split_char(line, ' ');
        pieces = trim_each(&split);
    } else {
        let ghost before = views(pieces@);
        pieces.push(String::from_str(line));
        assert(views(pieces@) =~= before.push(line@));
    }
    let ghost raw = views(pieces@);
    let mut res: Vec<String> = Vec::new();
    let mut i: usize = 0;
    assert(raw.take(0) =~= Seq::<Seq<char>>::empty());
    while i < pieces.len()
        invariant
            raw == views(pieces@),
            i <= pieces.len(),
            views(res@) == non_empty(raw.take(i as int)),
            forall|j: int| 0 <= j < res@.len() ==> #[trigger] res@[j]@.len() > 0,
        decreases pieces.len() - i,
    {
        assert(raw.take(i + 1).drop_last() =~= raw.take(i as int));
        let ghost before = views(res@);
        if pieces[i].as_str().unicode_len() > 0 {
            let t = pieces[i].clone();
            res.push(t);
            assert(views(res@) =~= before.push(raw[i as int]));
        }
        i = i + 1;
    }
    assert(raw.take(pieces.len() as int) =~= raw);
    res
}

/// Whether the word `t` selects the default: it is the default's position,
/// or `1`.
pub open spec fn selects_default(p: EntryPrompt, t: Seq<char>) -> bool {
    t == decimal(p.default_app().position as nat) || t == "1"@
}

/// The applications among the first `n` of the group whose position is
/// the word `t`, by install name.
pub open spec fn listed_names(p: EntryPrompt, t: Seq<char>, n: int) -> Seq<Seq<char>>
    decreases n,
{
    if n <= 0 {
        Seq::empty()
    } else {
        let before = listed_names(p, t, n - 1);
        if p.positions@[n - 1]@ == t {
            before.push(p.group.bin@[n - 1].install_name())
        } else {
            before
        }
    }
}

/// What the menu reports for the applications among the first `n` of the
/// group whose position is the word `t` and that have a full name.
pub open spec fn listed_messages(p: EntryPrompt, t: Seq<char>, n: int) -> Seq<Seq<char>>
    decreases n,
{
    if n <= 0 {
        Seq::empty()
    } else {
        let before = listed_messages(p, t, n - 1);
        if p.positions@[n - 1]@ == t && p.group.bin@[n - 1].fullname is Some {
            before.push("add app "@ + p.group.bin@[n - 1].fullname.unwrap()@)
        } else {
            before
        }
    }
}

/// What one word selects: nothing unless it is a number; the default when
/// it selects the default; else the applications at its position.
pub open spec fn token_names(p: EntryPrompt, t: Seq<char>) -> Seq<Seq<char>> {
    if !is_number_seq(t) {
        Seq::empty()
    } else if selects_default(p, t) {
        seq![p.default_app().install_name()]
    } else {
        listed_names(p, t, p.group.bin@.len() as int)
    }
}

/// What the menu reports for one word: for a number not below the count
/// of the group's other applications, that the input is invalid; then, for
/// each application it selects by position that has a full name, that it
/// adds it.
pub open spec fn token_messages(p: EntryPrompt, t: Seq<char>) -> Seq<Seq<char>> {
    if !is_number_seq(t) {
        Seq::empty()
    } else {
        let range = if parse_usize_seq(t).unwrap() >= p.group.bin@.len() {
            seq!["invalid Input"@]
        } else {
            Seq::empty()
        };
        if selects_default(p, t) {
            range
        } else {
            range + listed_messages(p, t, p.group.bin@.len() as int)
        }
    }
}

/// What the first `n` words select, in order.
pub open spec fn tokens_names(p: EntryPrompt, ts: Seq<Seq<char>>, n: int) -> Seq<Seq<char>>
    decreases n,
{
    if n <= 0 {
        Seq::empty()
    } else {
        tokens_names(p, ts, n - 1) + token_names(p, ts[n - 1])
    }
}

/// What the menu reports for the first `n` words, in order.
pub open spec fn tokens_messages(p: EntryPrompt, ts: Seq<Seq<char>>, n: int) -> Seq<Seq<char>>
    decreases n,
{
    if n <= 0 {
        Seq::empty()
    } else {
        tokens_messages(p, ts, n - 1) + token_messages(p, ts[n - 1])
    }
}

/// What an answer selects: the default for an empty answer, else what its
/// words select.
pub open spec fn answer_names(p: EntryPrompt, line: Seq<char>) -> Seq<Seq<char>> {
    if line.len() == 0 {
        seq![p.default_app().install_name()]
    } else {
        let ts = answer_tokens_seq(line);
        tokens_names(p, ts, ts.len() as int)
    }
}

/// What the menu reports for an answer.
pub open spec fn answer_messages(p: EntryPrompt, line: Seq<char>) -> Seq<Seq<char>> {
    if line.len() == 0 {
        Seq::empty()
    } else {
        let ts = answer_tokens_seq(line);
        tokens_messages(p, ts, ts.len() as int)
    }
}

/// Whether every numeric word of the answer reads as a `usize`.
pub open spec fn answer_parses(line: Seq<char>) -> bool {
    let ts = answer_tokens_seq(line);
    forall|i: int|
        0 <= i < ts.len() && is_number_seq(#[trigger] ts[i]) ==> parse_usize_seq(ts[i]) is Some
}

/// Selects the install name of `app`.
fn add_install_name(state: &mut InstallState, app: &App)
    ensures
        final(state).apps_view() == add_name(old(state).apps_view(), app.install_name()),
        final(state).params == old(state).params,
{
    match &app.fullname {
        Some(n) => add_app(state, n.as_str()),
        None => add_app(state, app.name.as_str()),
    }
}

proof fn lemma_listed_names_step(p: EntryPrompt, t: Seq<char>, j: int)
    requires
        0 <= j,
    ensures
        listed_names(p, t, j + 1) == listed_names(p, t, j) + (if p.positions@[j]@ == t {
            seq![p.group.bin@[j].install_name()]
        } else {
            Seq::<Seq<char>>::empty()
        }),
        listed_messages(p, t, j + 1) == listed_messages(p, t, j) + (if p.positions@[j]@ == t
            && p.group.bin@[j].fullname is Some {
            seq!["add app "@ + p.group.bin@[j].fullname.unwrap()@]
        } else {
            Seq::<Seq<char>>::empty()
        }),
{
    assert(listed_names(p, t, j) + Seq::<Seq<char>>::empty() =~= listed_names(p, t, j));
    assert(listed_messages(p, t, j) + Seq::<Seq<char>>::empty() =~= listed_messages(p, t, j));
    assert(listed_names(p, t, j).push(p.group.bin@[j].install_name()) =~= listed_names(p, t, j)
        + seq![p.group.bin@[j].install_name()]);
    if p.group.bin@[j].fullname is Some {
        assert(listed_messages(p, t, j).push("add app "@ + p.group.bin@[j].fullname.unwrap()@)
            =~= listed_messages(p, t, j) + seq![
            "add app "@ + p.group.bin@[j].fullname.unwrap()@,
        ]);
    }
}

impl EntryPrompt {
    /// Does what one numeric word of an answer says.
    fn select_number(&self, t: &String, state: &mut InstallState, msgs: &mut Vec<String>)
        requires
            self.wf(),
            is_number_seq(t@),
            parse_usize_seq(t@) is Some,
        ensures
            final(state).apps_view() == add_names(
                old(state).apps_view(),
                token_names(*self, t@),
            ),
            final(state).params == old(state).params,
            views(final(msgs)@) == views(old(msgs)@) + token_messages(*self, t@),
    {
        let ghost start = state.apps_view();
        let ghost m0 = views(msgs@);
        let check = match parse_usize(t.as_str()) {
            Some(n) => n,
            None => 0,
        };
        if check >= self.group.bin.len() {
            msgs.push(String::from_str("invalid Input"));
            proof {
                reveal_strlit("invalid Input");
            }
        }
        let ghost m1 = views(msgs@);
        assert(m1 == m0 + (if parse_usize_seq(t@).unwrap() >= self.group.bin@.len() {
            seq!["invalid Input"@]
        } else {
            Seq::<Seq<char>>::empty()
        }));
        let default = match &self.group.default {
            Some(d) => d,
            None => {
                return ;
            },
        };
        let pos = u32_to_string(default.position);
        if str_eq(t.as_str(), pos.as_str()) || str_eq(t.as_str(), "1") {
            add_install_name(state, default);
            proof {
                lemma_add_names_single(start, default.install_name());
            }
            assert(m1 =~= m0 + token_messages(*self, t@));
        } else {
            let mut j: usize = 0;
            while j < self.group.bin.len()
                invariant
                    self.wf(),
                    j <= self.group.bin.len(),
                    state.apps_view() == add_names(start, listed_names(*self, t@, j as int)),
                    state.params == old(state).params,
                    views(msgs@) == m1 + listed_messages(*self, t@, j as int),
                decreases self.group.bin.len() - j,
            {
                proof {
                    lemma_listed_names_step(*self, t@, j as int);
                }
                let ghost before = state.apps_view();
                let ghost mb = views(msgs@);
                if str_eq(t.as_str(), self.positions[j].as_str()) {
                    let app = &self.group.bin[j];
                    match &app.fullname {
                        Some(n) => {
                            let mut m = String::from_str("add app ");
                            m.append(n.as_str());
                            msgs.push(m);
                            proof {
                                reveal_strlit("add app ");
                            }
                            assert(views(msgs@) =~= mb.push("add app "@ + n@));
                        },
                        None => {},
                    }
                    add_install_name(state, app);
                    proof {
                        let names = listed_names(*self, t@, j as int);
                        lemma_add_names_append(start, names, seq![app.install_name()]);
                        lemma_add_names_single(add_names(start, names), app.install_name());
                    }
                }
                proof {
                    assert(listed_names(*self, t@, j as int) + Seq::<Seq<char>>::empty()
                        =~= listed_names(*self, t@, j as int));
                }
                j = j + 1;
            }
            assert(views(msgs@) =~= m0 + token_messages(*self, t@));
        }
    }

    /// Does what the answer `line` says: an empty answer selects the
    /// default; otherwise each numeric word selects the default (when it is
    /// the default's position or `1`) or the applications at its position.
    /// Returns what the menu reports, in order.
    pub fn select(&self, line: &str, state: &mut InstallState) -> (res: Vec<String>)
        requires
            self.wf(),
            answer_parses(line@),
        ensures
            final(state).apps_view() == add_names(
                old(state).apps_view(),
                answer_names(*self, line@),
            ),
            final(state).params == old(state).params,
            views(res@) == answer_messages(*self, line@),
    {
        let mut msgs: Vec<String> = Vec::new();
        if line.unicode_len() == 0 {
            match &self.group.default {
                Some(d) => {
                    let ghost before = state.apps_view();
                    add_install_name(state, d);
                    proof {
                        lemma_add_names_single(before, d.install_name());
                    }
                },
                None => {},
            }
            assert(views(msgs@) =~= Seq::<Seq<char>>::empty());
            return msgs;
        }
        let tokens = answer_tokens(line);
        let ghost ts = answer_tokens_seq(line@);
        let ghost start = state.apps_view();
        let mut k: usize = 0;
        assert(views(msgs@) =~= tokens_messages(*self, ts, 0));
        while k < tokens.len()
            invariant
                self.wf(),
                answer_parses(line@),
                ts == answer_tokens_seq(line@),
                views(tokens@) == ts,
                k <= tokens.len(),
                state.apps_view() == add_names(start, tokens_names(*self, ts, k as int)),
                state.params == old(state).params,
                views(msgs@) == tokens_messages(*self, ts, k as int),
            decreases tokens.len() - k,
        {
            let t = &tokens[k];
            assert(ts[k as int] == t@);
            if is_number(t.as_str()) {
                self.select_number(t, state, &mut msgs);
                proof {
                    lemma_add_names_append(
                        start,
                        tokens_names(*self, ts, k as int),
                        token_names(*self, t@),
                    );
                }
            } else {
                assert(tokens_names(*self, ts, k + 1) =~= tokens_names(*self, ts, k as int));
                assert(tokens_messages(*self, ts, k + 1) =~= tokens_messages(
                    *self,
                    ts,
                    k as int,
                ));
            }
            k = k + 1;
        }
        msgs
    }

    /// Does what the answer `line` says when every numeric word of it reads
    /// as a `usize`, and returns what the menu reports; returns `None`, with
    /// the selection unchanged, when one does not.
    pub fn try_select(&self, line: &str, state: &mut InstallState) -> (res: Option<Vec<String>>)
        requires
            self.wf(),
        ensures
            res is None <==> !answer_parses(line@),
            res is None <==> exists|i: int|
                0 <= i < answer_tokens_seq(line@).len() && is_number_seq(
                    #[trigger] answer_tokens_seq(line@)[i],
                ) && parse_usize_seq(answer_tokens_seq(line@)[i]) is None,
            res is None ==> *final(state) == *old(state),
            res matches Some(m) ==> {
                &&& final(state).apps_view() == add_names(
                    old(state).apps_view(),
                    answer_names(*self, line@),
                )
                &&& final(state).params == old(state).params
                &&& views(m@) == answer_messages(*self, line@)
            },
    {
        let tokens = answer_tokens(line);
        let ghost ts = answer_tokens_seq(line@);
        let mut k: usize = 0;
        while k < tokens.len()
            invariant
                views(tokens@) == ts,
                ts == answer_tokens_seq(line@),
                k <= tokens.len(),
                forall|i: int|
                    0 <= i < k && is_number_seq(#[trigger] ts[i]) ==> parse_usize_seq(ts[i]) is Some,
            decreases tokens.len() - k,
        {
            assert(ts[k as int] == tokens@[k as int]@);
            if is_number(tokens[k].as_str()) {
                if parse_usize(tokens[k].as_str()).is_none() {
                    return None;
                }
            }
            k = k + 1;
        }
        Some(self.select(line, state))
    }
}

impl Menu {
    /// Whether `group` can be offered (see `can_enter_spec`).
    pub fn can_enter(group: &Group) -> (res: bool)
        requires
            group.wf(),
        ensures
            res == can_enter_spec(*group),
    {
        match &group.default {
            Some(d) => {
                if group.bin.len() > 4294967293 {
                    return false;
                }
                let others = match find_app(&group.bin, &d.name) {
                    Some(_) => group.bin.len() - 1,
                    None => group.bin.len(),
                };
                proof {
                    let r = remove_app_named(group.bin@, d.name@);
                    if has_app(group.bin@, d.name@) {
                        assert(r.len() == group.bin@.len() - 1);
                    }
                }
                others >= 1
            },
            None => false,
        }
    }

    /// Prepares the offer of `group`: its default comes out of its
    /// applications, which are numbered from 2 in order; the header is the
    /// group's name in upper case; the listing shows the default as `1.`,
    /// then the numbered applications.
    pub fn entry(&self, group: Group) -> (res: EntryPrompt)
        requires
            can_enter_spec(group),
        ensures
            res.wf(),
            res.group == (Group { bin: res.group.bin, ..group }),
            res.group.bin@ == remove_app_named(group.bin@, group.default.unwrap().name@),
            match group.name {
                Some(n) => res.header matches Some(h) && h@ == uppercase(n@),
                None => res.header is None,
            },
            res.listing@ == listing_seq(group.default.unwrap().name@, res.group.bin@),
    {
        let mut group = group;
        let ghost g0 = group;
        let dname = match &group.default {
            Some(d) => d.name.clone(),
            None => String::new(),
        };
        remove_app_exec(&mut group.bin, &dname);
        let ghost bin = group.bin@;
        assert(bin.len() >= 1);
        let mut text = String::new();
        let mut positions: Vec<String> = Vec::new();
        let mut count: u32 = 1;
        let mut i: usize = 0;
        while i < group.bin.len()
            invariant
                group.bin@ == bin,
                bin.len() + 2 <= u32::MAX,
                i <= bin.len(),
                count as int == i + 1,
                positions@.len() == i,
                forall|j: int| 0 <= j < i ==> #[trigger] positions@[j]@ == decimal((j + 2) as nat),
                text@ == items_text(bin, i as nat),
            decreases bin.len() - i,
        {
            count = count + 1;
            let num = u32_to_string(count);
            text.append(num.as_str());
            text.append(". ");
            text.append(group.bin[i].name.as_str());
            text.append(", ");
            positions.push(num);
            i = i + 1;
        }
        let n = text.as_str().unicode_len();
        proof {
            reveal_strlit(", ");
            assert(text@.len() >= 2);
        }
        let items = text.as_str().substring_char(0, n - 2);
        let mut listing = String::from_str("1. ");
        listing.append(dname.as_str());
        listing.append(", ");
        listing.append(items);
        listing.append(" | ");
        listing.append("Default: 1.");
        let header = match &group.name {
            Some(name) => Some(to_uppercase(name.as_str())),
            None => None,
        };
        let res = EntryPrompt { group, positions, header, listing };
        assert(res.group == (Group { bin: res.group.bin, ..g0 }));
        res
    }
}

/// Whether the prompt offers an application installed as `n`: the default
/// or one of the group's applications.
pub open spec fn offers(p: EntryPrompt, n: Seq<char>) -> bool {
    n == p.default_app().install_name() || exists|j: int|
        0 <= j < p.group.bin@.len() && #[trigger] p.group.bin@[j].install_name() == n
}

proof fn lemma_listed_offered(p: EntryPrompt, t: Seq<char>, n: int)
    requires
        0 <= n <= p.group.bin@.len(),
    ensures
        forall|i: int|
            0 <= i < listed_names(p, t, n).len() ==> offers(p, #[trigger] listed_names(p, t, n)[i]),
    decreases n,
{
    if n > 0 {
        lemma_listed_offered(p, t, n - 1);
        let before = listed_names(p, t, n - 1);
        if p.positions@[n - 1]@ == t {
            assert forall|i: int| 0 <= i < listed_names(p, t, n).len() implies offers(
                p,
                #[trigger] listed_names(p, t, n)[i],
            ) by {
                if i < before.len() {
                    assert(listed_names(p, t, n)[i] == before[i]);
                } else {
                    assert(p.group.bin@[n - 1].install_name() == listed_names(p, t, n)[i]);
                }
            }
        }
    }
}

proof fn lemma_tokens_offered(p: EntryPrompt, ts: Seq<Seq<char>>, n: int)
    requires
        0 <= n <= ts.len(),
    ensures
        forall|i: int|
            0 <= i < tokens_names(p, ts, n).len() ==> offers(p, #[trigger] tokens_names(p, ts, n)[i]),
    decreases n,
{
    if n > 0 {
        lemma_tokens_offered(p, ts, n - 1);
        let before = tokens_names(p, ts, n - 1);
        let tn = token_names(p, ts[n - 1]);
        lemma_listed_offered(p, ts[n - 1], p.group.bin@.len() as int);
        assert forall|i: int| 0 <= i < tokens_names(p, ts, n).len() implies offers(
            p,
            #[trigger] tokens_names(p, ts, n)[i],
        ) by {
            if i < before.len() {
                assert(tokens_names(p, ts, n)[i] == before[i]);
            } else {
                assert(tokens_names(p, ts, n)[i] == tn[i - before.len()]);
            }
        }
    }
}

/// A menu answer only ever selects what the menu offers: the default, or
/// one of the group's applications, each under its install name.
pub proof fn law_answer_selects_offered(p: EntryPrompt, line: Seq<char>)
    ensures
        forall|i: int|
            0 <= i < answer_names(p, line).len() ==> offers(p, #[trigger] answer_names(p, line)[i]),
{
    if line.len() > 0 {
        let ts = answer_tokens_seq(line);
        lemma_tokens_offered(p, ts, ts.len() as int);
    }
}

/// An empty answer selects exactly the default.
pub proof fn law_empty_answer_selects_default(p: EntryPrompt)
    ensures
        answer_names(p, Seq::<char>::empty()) == seq![p.default_app().install_name()],
        answer_messages(p, Seq::<char>::empty()).len() == 0,
{
}

/// Does nothing with a command line and a group.
pub fn run(c: Cli, g: Group) {
}

/// An answer is refused only for a numeric word that does not read as a
/// `usize`: an answer is accepted exactly when each of its words is either
/// not a number or reads as one, so an answer none of whose words is a
/// number is always accepted.
pub proof fn law_only_numbers_refused(line: Seq<char>)
    ensures
        answer_parses(line) <==> forall|i: int|
            0 <= i < answer_tokens_seq(line).len() ==> (!is_number_seq(
                #[trigger] answer_tokens_seq(line)[i],
            ) || parse_usize_seq(answer_tokens_seq(line)[i]) is Some),
        (forall|i: int|
            0 <= i < answer_tokens_seq(line).len() ==> !is_number_seq(
                #[trigger] answer_tokens_seq(line)[i],
            )) ==> answer_parses(line),
{
}

} // verus!
