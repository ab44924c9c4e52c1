//! Path completion, number recognition, backup paths and the reading of
//! the distribution's `os-release` description.
use vstd::prelude::*;
use crate::text::{
    char_is_numeric, concat_str, contains_char, contains_seq, contains_str, is_numeric, lowercase,
    non_empty, remove_char, remove_char_seq, split_char, split_seq, to_chars, to_lowercase,
    trim_all, trim_each, views,
};

verus! {

/// Whether every character of `s` is numeric (vacuously true when empty).
pub open spec fn is_number_seq(s: Seq<char>) -> bool {
    forall|i: int| 0 <= i < s.len() ==> is_numeric(#[trigger] s[i])
}

/// Whether every character of `s` is numeric.
pub fn is_number(s: &str) -> (res: bool)
    ensures
        res == is_number_seq(s@),
{
    let cs = to_chars(s);
    let mut i: usize = 0;
    while i < cs.len()
        invariant
            cs@ == s@,
            i <= cs.len(),
            forall|j: int| 0 <= j < i ==> is_numeric(#[trigger] s@[j]),
        decreases cs.len() - i,
    {
        if !char_is_numeric(cs[i]) {
            return false;
        }
        i = i + 1;
    }
    true
}

/// The relative path `p` made explicit: `./p` when `p` holds no `/`.
pub open spec fn complete_path_seq(p: Seq<char>) -> Seq<char> {
    if p.contains('/') {
        p
    } else {
        seq!['.', '/'] + p
    }
}

/// Prefixes `./` to a path that holds no `/`.
pub fn complete_path(p: String) -> (res: String)
    ensures
        res@ == complete_path_seq(p@),
{
    if !contains_char(p.as_str(), '/') {
        proof {
            reveal_strlit("./");
        }
        concat_str("./", p.as_str())
    } else {
        p
    }
}

/// A completed path holds a `/`, and completing it again changes nothing.
pub proof fn law_complete_path_idempotent(p: Seq<char>)
    ensures
        complete_path_seq(p).contains('/'),
        complete_path_seq(complete_path_seq(p)) == complete_path_seq(p),
{
    if !p.contains('/') {
        let q = seq!['.', '/'] + p;
        assert(q[1] == '/');
    }
}

// ---------------------------------------------------------------------------
// Backups
// ---------------------------------------------------------------------------

/// The directory that is backed up (`<home>config`) and the directory it
/// is copied to (`<home><backup_path>config<time>`).
pub fn backup_dirs(homedir: &str, backup_path: &str, time: &str) -> (res: (String, String))
    ensures
        res.0@ == homedir@ + "config"@,
        res.1@ == homedir@ + backup_path@ + "config"@ + time@,
{
    let mut backup_dir = concat_str(homedir, backup_path);
    backup_dir.append("config");
    backup_dir.append(time);
    let target = concat_str(homedir, "config");
    (target, backup_dir)
}

// ---------------------------------------------------------------------------
// The distribution
// ---------------------------------------------------------------------------

/// The non-empty lines of `s`.
pub open spec fn lines_of(s: Seq<char>) -> Seq<Seq<char>> {
    non_empty(split_seq(s, '\n'))
}

/// Whether `line` mentions `ID_LIKE`.
pub open spec fn is_id_like_line(line: Seq<char>) -> bool {
    contains_seq(line, "ID_LIKE"@)
}

/// The value of an `ID_LIKE` line: what follows its first `=` up to the
/// next one, without double quotes and backslashes.
pub open spec fn id_like_value(line: Seq<char>) -> Seq<char> {
    remove_char_seq(remove_char_seq(split_seq(line, '=')[1], '"'), '\\')
}

/// The value of the last line among the first `n` that mentions
/// `ID_LIKE`, or the empty string when there is none.
pub open spec fn last_id_like(lines: Seq<Seq<char>>, n: int) -> Seq<char>
    decreases n,
{
    if n <= 0 {
        Seq::empty()
    } else if is_id_like_line(lines[n - 1]) {
        id_like_value(lines[n - 1])
    } else {
        last_id_like(lines, n - 1)
    }
}

/// Whether every line of an `os-release` text that mentions `ID_LIKE`
/// holds a `=`.
pub open spec fn os_release_ok(s: Seq<char>) -> bool {
    let lines = lines_of(s);
    forall|i: int| 0 <= i < lines.len() && is_id_like_line(#[trigger] lines[i]) ==> lines[i].contains('=')
}

/// The distributions an `os-release` text says the system is like: the
/// words of its last `ID_LIKE` value (trimmed, split at spaces when it has
/// any), in lower case.
pub open spec fn distro_ids_seq(s: Seq<char>) -> Seq<Seq<char>> {
    let lines = lines_of(s);
    let os = last_id_like(lines, lines.len() as int);
    let words = if os.contains(' ') {
        trim_all(split_seq(os, ' '))
    } else {
        seq![os]
    };
    words.map_values(|w: Seq<char>| lowercase(w))
}

/// A line with a `=` splits into at least two pieces.
proof fn lemma_split_two(s: Seq<char>, c: char)
    requires
        s.contains(c),
    ensures
        split_seq(s, c).len() >= 2,
    decreases s.len(),
{
    crate::text::lemma_split_seq_nonempty(s.drop_last(), c);
    if s.last() != c {
        let i = choose|i: int| 0 <= i < s.len() && s[i] == c;
        assert(s.drop_last()[i] == c);
        lemma_split_two(s.drop_last(), c);
    }
}

/// The non-empty lines of `s`.
pub fn non_empty_lines(s: &str) -> (res: Vec<String>)
    ensures
        views(res@) == lines_of(s@),
{
    let pieces = split_char(s, '\n');
    let ghost raw = views(pieces@);
    let mut res: Vec<String> = Vec::new();
    let mut i: usize = 0;
    assert(raw.take(0) =~= Seq::<Seq<char>>::empty());
    while i < pieces.len()
        invariant
            raw == views(pieces@),
            raw == split_seq(s@, '\n'),
            i <= pieces.len(),
            views(res@) == non_empty(raw.take(i as int)),
        decreases pieces.len() - i,
    {
        assert(raw.take(i + 1).drop_last() =~= raw.take(i as int));
        let ghost before = views(res@);
        if pieces[i].as_str().unicode_len() > 0 {
            res.push(pieces[i].clone());
            assert(views(res@) =~= before.push(raw[i as int]));
        }
        i = i + 1;
    }
    assert(raw.take(pieces.len() as int) =~= raw);
    res
}

/// Whether every line of the `os-release` text `s` that mentions `ID_LIKE`
/// holds a `=`.
pub fn check_os_release(s: &str) -> (res: bool)
    ensures
        res == os_release_ok(s@),
{
    let lines = non_empty_lines(s);
    let ghost ls = lines_of(s@);
    let mut i: usize = 0;
    while i < lines.len()
        invariant
            views(lines@) == ls,
            ls == lines_of(s@),
            i <= lines.len(),
            forall|j: int| 0 <= j < i && is_id_like_line(#[trigger] ls[j]) ==> ls[j].contains('='),
        decreases lines.len() - i,
    {
        assert(ls[i as int] == lines@[i as int]@);
        if contains_str(lines[i].as_str(), "ID_LIKE") && !contains_char(lines[i].as_str(), '=') {
            return false;
        }
        i = i + 1;
    }
    true
}

/// The distributions the `os-release` text `s` says the system is like.
pub fn distro_ids(s: &str) -> (res: Vec<String>)
    requires
        os_release_ok(s@),
    ensures
        views(res@) == distro_ids_seq(s@),
{
    let lines = non_empty_lines(s);
    let ghost ls = lines_of(s@);
    let mut os = String::new();
    let mut i: usize = 0;
    while i < lines.len()
        invariant
            views(lines@) == ls,
            ls == lines_of(s@),
            os_release_ok(s@),
            i <= lines.len(),
            os@ == last_id_like(ls, i as int),
        decreases lines.len() - i,
    {
        assert(ls[i as int] == lines@[i as int]@);
        if contains_str(lines[i].as_str(), "ID_LIKE") {
            let split = split_char(lines[i].as_str(), '=');
            proof {
                lemma_split_two(ls[i as int], '=');
            }
            let v = remove_char(split[1].as_str(), '"');
            os = remove_char(v.as_str(), '\\');
        }
        i = i + 1;
    }
    let words: Vec<String> = if contains_char(os.as_str(), ' ') {
        let split = split_char(os.as_str(), ' ');
        trim_each(&split)
    } else {
        let mut w = Vec::new();
        w.push(os);
        assert(views(w@) =~= seq![last_id_like(ls, ls.len() as int)]);
        w
    };
    let ghost ws = views(words@);
    let mut res: Vec<String> = Vec::new();
    let mut k: usize = 0;
    while k < words.len()
        invariant
            ws == views(words@),
            k <= words.len(),
            views(res@) == ws.take(k as int).map_values(|w: Seq<char>| lowercase(w)),
        decreases words.len() - k,
    {
        let ghost before = views(res@);
        let l = to_lowercase(words[k].as_str());
        res.push(l);
        assert(views(res@) =~= before.push(lowercase(ws[k as int])));
        k = k + 1;
        assert(views(res@) =~= ws.take(k as int).map_values(|w: Seq<char>| lowercase(w)));
    }
    assert(ws.take(words.len() as int) =~= ws);
    res
}

/// Whether the `os-release` text `s` says the system is like `distro`.
pub fn check_distro(s: &str, distro: &str) -> (res: bool)
    requires
        os_release_ok(s@),
    ensures
        res == distro_ids_seq(s@).contains(distro@),
{
    let ids = distro_ids(s);
    let ghost v = views(ids@);
    let mut i: usize = 0;
    while i < ids.len()
        invariant
            v == views(ids@),
            v == distro_ids_seq(s@),
            i <= ids.len(),
            forall|j: int| 0 <= j < i ==> v[j] != distro@,
        decreases ids.len() - i,
    {
        if crate::text::str_eq(ids[i].as_str(), distro) {
            assert(v[i as int] == distro@);
            return true;
        }
        i = i + 1;
    }
    false
}

} // verus!
