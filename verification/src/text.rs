//! Character-level text helpers shared by the configuration, menu and
//! distribution modules: searching, splitting, trimming and decimal numbers.
use vstd::prelude::*;

verus! {

// ---------------------------------------------------------------------------
// Character classes taken from std
// ---------------------------------------------------------------------------

/// Whether `c` is an ASCII character.
pub open spec fn is_ascii_char(c: char) -> bool {
    (c as u32) < 128
}

/// The ASCII characters that carry the Unicode `White_Space` property:
/// horizontal tab, line feed, vertical tab, form feed, carriage return, space.
pub open spec fn is_ascii_white_space(c: char) -> bool {
    c == '\t' || c == '\n' || c == '\u{b}' || c == '\u{c}' || c == '\r' || c == ' '
}

/// Whether `c` is an ASCII decimal digit.
pub open spec fn is_ascii_digit(c: char) -> bool {
    '0' <= c && c <= '9'
}

/// What `char::is_whitespace` answers for `c`.
pub uninterp spec fn is_white_space(c: char) -> bool;

/// What `char::is_numeric` answers for `c`.
pub uninterp spec fn is_numeric(c: char) -> bool;

/// Calls `char::is_whitespace`. Its result is named `is_white_space(c)`;
/// the contract also states what the std documentation gives for ASCII
/// characters (the `White_Space` property there is exactly tab, line feed,
/// vertical tab, form feed, carriage return and space).
#[verifier::external_body]
pub(crate) fn char_is_whitespace(c: char) -> (r: bool)
    ensures
        r == is_white_space(c),
        is_ascii_char(c) ==> (r == is_ascii_white_space(c)),
{
    c.is_whitespace()
}

/// Calls `char::is_numeric`. Its result is named `is_numeric(c)`; the
/// contract also states that among ASCII characters exactly the decimal
/// digits are numeric (general categories Nd, Nl, No).
#[verifier::external_body]
pub(crate) fn char_is_numeric(c: char) -> (r: bool)
    ensures
        r == is_numeric(c),
        is_ascii_char(c) ==> (r == is_ascii_digit(c)),
{
    c.is_numeric()
}

// ---------------------------------------------------------------------------
// Case mapping taken from std
// ---------------------------------------------------------------------------

/// ASCII lower case of one character.
pub open spec fn ascii_lower_char(c: char) -> char {
    if 'A' <= c && c <= 'Z' {
        ((c as u32) + 32) as char
    } else {
        c
    }
}

/// ASCII upper case of one character.
pub open spec fn ascii_upper_char(c: char) -> char {
    if 'a' <= c && c <= 'z' {
        ((c as u32) - 32) as char
    } else {
        c
    }
}

/// Whether every character of `s` is ASCII.
pub open spec fn all_ascii(s: Seq<char>) -> bool {
    forall|i: int| 0 <= i < s.len() ==> is_ascii_char(#[trigger] s[i])
}

/// What `str::to_lowercase` returns for `s`.
pub uninterp spec fn lowercase(s: Seq<char>) -> Seq<char>;

/// What `str::to_uppercase` returns for `s`.
pub uninterp spec fn uppercase(s: Seq<char>) -> Seq<char>;

/// Calls `str::to_lowercase`. The result is named `lowercase(s@)`; for an
/// all-ASCII string it is the character-wise ASCII lower case, as the std
/// documentation's Unicode `Lowercase` mapping gives there.
#[verifier::external_body]
pub(crate) fn to_lowercase(s: &str) -> (r: String)
    ensures
        r@ == lowercase(s@),
        all_ascii(s@) ==> r@ == s@.map_values(|c: char| ascii_lower_char(c)),
{
    s.to_lowercase()
}

/// Calls `str::to_uppercase`. The result is named `uppercase(s@)`; for an
/// all-ASCII string it is the character-wise ASCII upper case.
#[verifier::external_body]
pub(crate) fn to_uppercase(s: &str) -> (r: String)
    ensures
        r@ == uppercase(s@),
        all_ascii(s@) ==> r@ == s@.map_values(|c: char| ascii_upper_char(c)),
{
    s.to_uppercase()
}

// ---------------------------------------------------------------------------
// Building strings
// ---------------------------------------------------------------------------

/// Calls `String::push`: the character is appended.
#[verifier::external_body]
pub(crate) fn push_char(s: &mut String, c: char)
    ensures
        final(s)@ == old(s)@.push(c),
{
    s.push(c)
}

/// The characters of `s`, in order.
pub fn to_chars(s: &str) -> (res: Vec<char>)
    ensures
        res@ == s@,
{
    let n = s.unicode_len();
    let mut res: Vec<char> = Vec::new();
    let mut i: usize = 0;
    while i < n
        invariant
            n == s@.len(),
            i <= n,
            res@ == s@.take(i as int),
        decreases n - i,
    {
        let c = s.get_char(i);
        res.push(c);
        i = i + 1;
        assert(res@ =~= s@.take(i as int));
    }
    assert(res@ =~= s@);
    res
}

/// The string made of the characters `cs[from..to]`.
pub fn string_from_chars(cs: &Vec<char>, from: usize, to: usize) -> (res: String)
    requires
        from <= to <= cs.len(),
    ensures
        res@ == cs@.subrange(from as int, to as int),
{
    let mut res = String::new();
    let mut i: usize = from;
    while i < to
        invariant
            from <= i <= to <= cs.len(),
            res@ == cs@.subrange(from as int, i as int),
        decreases to - i,
    {
        push_char(&mut res, cs[i]);
        i = i + 1;
        assert(res@ =~= cs@.subrange(from as int, i as int));
    }
    res
}

/// `a` followed by `b`, as a new string.
pub fn concat_str(a: &str, b: &str) -> (res: String)
    ensures
        res@ == a@ + b@,
{
    let mut res = String::from_str(a);
    res.append(b);
    res
}

/// Whether the strings `a` and `b` hold the same characters.
pub fn str_eq(a: &str, b: &str) -> (res: bool)
    ensures
        res == (a@ == b@),
{
    let x = to_chars(a);
    let y = to_chars(b);
    if x.len() != y.len() {
        return false;
    }
    let mut i: usize = 0;
    while i < x.len()
        invariant
            x@ == a@,
            y@ == b@,
            x.len() == y.len(),
            i <= x.len(),
            forall|j: int| 0 <= j < i ==> x@[j] == y@[j],
        decreases x.len() - i,
    {
        if x[i] != y[i] {
            return false;
        }
        i = i + 1;
    }
    assert(a@ =~= b@);
    true
}

// ---------------------------------------------------------------------------
// Searching
// ---------------------------------------------------------------------------

/// Returns whether the string `s` contains the character `c`.
pub fn contains_char(s: &str, c: char) -> (res: bool)
    ensures
        res == s@.contains(c),
{
    let cs = to_chars(s);
    let mut i: usize = 0;
    while i < cs.len()
        invariant
            cs@ == s@,
            i <= cs.len(),
            forall|j: int| 0 <= j < i ==> cs@[j] != c,
        decreases cs.len() - i,
    {
        if cs[i] == c {
            return true;
        }
        i = i + 1;
    }
    false
}

/// Whether `needle` occurs in `s` as a contiguous piece.
pub open spec fn contains_seq(s: Seq<char>, needle: Seq<char>) -> bool {
    exists|i: int|
        0 <= i && i + needle.len() <= s.len() && #[trigger] s.subrange(i, i + needle.len())
            == needle
}

/// Whether `needle` occurs at position `i` of `s`.
pub open spec fn occurs_at(s: Seq<char>, needle: Seq<char>, i: int) -> bool {
    0 <= i && i + needle.len() <= s.len() && s.subrange(i, i + needle.len()) == needle
}

/// Returns whether `needle` occurs in `s` (`str::contains` with a string pattern).
pub fn contains_str(s: &str, needle: &str) -> (res: bool)
    ensures
        res == contains_seq(s@, needle@),
{
    let cs = to_chars(s);
    let ns = to_chars(needle);
    if ns.len() > cs.len() {
        return false;
    }
    let last = cs.len() - ns.len();
    let mut i: usize = 0;
    while i <= last
        invariant
            cs@ == s@,
            ns@ == needle@,
            last == cs.len() - ns.len(),
            ns.len() <= cs.len(),
            i <= last + 1,
            forall|k: int| 0 <= k < i ==> !occurs_at(s@, needle@, k),
        decreases last + 1 - i,
    {
        let mut j: usize = 0;
        let mut same = true;
        while j < ns.len()
            invariant
                cs@ == s@,
                ns@ == needle@,
                i <= last,
                last == cs.len() - ns.len(),
                j <= ns.len(),
                same == (forall|k: int| 0 <= k < j ==> cs@[i + k] == ns@[k]),
            decreases ns.len() - j,
        {
            if cs[i + j] != ns[j] {
                same = false;
            }
            j = j + 1;
        }
        if same {
            assert(s@.subrange(i as int, i + needle@.len()) =~= needle@);
            assert(occurs_at(s@, needle@, i as int));
            return true;
        } else {
            assert(!occurs_at(s@, needle@, i as int)) by {
                if occurs_at(s@, needle@, i as int) {
                    assert forall|k: int| 0 <= k < ns.len() implies cs@[i + k] == ns@[k] by {
                        assert(s@.subrange(i as int, i + needle@.len())[k] == s@[i + k]);
                    }
                }
            }
        }
        i = i + 1;
    }
    assert forall|k: int|
        0 <= k && k + needle@.len() <= s@.len() implies #[trigger] s@.subrange(
        k,
        k + needle@.len(),
    ) != needle@ by {
        assert(!occurs_at(s@, needle@, k));
    }
    false
}

// ---------------------------------------------------------------------------
// Splitting, trimming, removing
// ---------------------------------------------------------------------------

/// The pieces of `s` between occurrences of `sep`, as `str::split` with a
/// one-character pattern yields them: `n` separators give `n + 1` pieces,
/// and the empty string gives one empty piece.
pub open spec fn split_seq(s: Seq<char>, sep: char) -> Seq<Seq<char>>
    decreases s.len(),
{
    if s.len() == 0 {
        seq![Seq::<char>::empty()]
    } else {
        let rest = split_seq(s.drop_last(), sep);
        if s.last() == sep {
            rest.push(Seq::<char>::empty())
        } else {
            rest.update(rest.len() - 1, rest.last().push(s.last()))
        }
    }
}

/// `split_seq` never yields an empty list of pieces.
pub proof fn lemma_split_seq_nonempty(s: Seq<char>, sep: char)
    ensures
        split_seq(s, sep).len() >= 1,
    decreases s.len(),
{
    if s.len() > 0 {
        lemma_split_seq_nonempty(s.drop_last(), sep);
    }
}

/// The views of a list of strings.
pub open spec fn views(v: Seq<String>) -> Seq<Seq<char>> {
    v.map_values(|x: String| x@)
}

/// Splits `s` at every occurrence of `sep` (`s.split(sep)` collected).
pub fn split_char(s: &str, sep: char) -> (res: Vec<String>)
    ensures
        views(res@) == split_seq(s@, sep),
{
    let cs = to_chars(s);
    let mut done: Vec<String> = Vec::new();
    let mut cur = String::new();
    let mut i: usize = 0;
    assert(s@.take(0) =~= Seq::<char>::empty());
    assert(views(done@).push(cur@) =~= split_seq(s@.take(0), sep));
    while i < cs.len()
        invariant
            cs@ == s@,
            i <= cs.len(),
            views(done@).push(cur@) == split_seq(s@.take(i as int), sep),
        decreases cs.len() - i,
    {
        let c = cs[i];
        let ghost prev = s@.take(i as int);
        assert(s@.take(i + 1).drop_last() =~= prev);
        assert(s@.take(i + 1).last() == c);
        if c == sep {
            done.push(cur);
            cur = String::new();
            assert(views(done@).push(cur@) =~= split_seq(s@.take(i + 1), sep));
        } else {
            push_char(&mut cur, c);
            assert(views(done@).push(cur@) =~= split_seq(s@.take(i + 1), sep));
        }
        i = i + 1;
    }
    assert(s@.take(cs.len() as int) =~= s@);
    done.push(cur);
    assert(views(done@) =~= split_seq(s@, sep));
    done
}

/// `s` without its leading white space.
pub open spec fn trim_start_seq(s: Seq<char>) -> Seq<char>
    decreases s.len(),
{
    if s.len() > 0 && is_white_space(s[0]) {
        trim_start_seq(s.drop_first())
    } else {
        s
    }
}

/// `s` without its trailing white space.
pub open spec fn trim_end_seq(s: Seq<char>) -> Seq<char>
    decreases s.len(),
{
    if s.len() > 0 && is_white_space(s.last()) {
        trim_end_seq(s.drop_last())
    } else {
        s
    }
}

/// `s` without leading and trailing white space (what `str::trim` returns;
/// its documentation defines white space as `char::is_whitespace` does).
pub open spec fn trim_seq(s: Seq<char>) -> Seq<char> {
    trim_end_seq(trim_start_seq(s))
}

/// The string `s` without leading and trailing white space.
pub fn trim(s: &str) -> (res: String)
    ensures
        res@ == trim_seq(s@),
{
    let cs = to_chars(s);
    let n = cs.len();
    let mut i: usize = 0;
    assert(s@.subrange(0, n as int) =~= s@);
    while i < n && char_is_whitespace(cs[i])
        invariant
            cs@ == s@,
            n == cs.len(),
            i <= n,
            trim_start_seq(s@) == trim_start_seq(s@.subrange(i as int, n as int)),
        decreases n - i,
    {
        assert(s@.subrange(i as int, n as int).drop_first() =~= s@.subrange(i + 1, n as int));
        i = i + 1;
    }
    // `cs[i..n]` is now `trim_start_seq(s@)`
    let mut j: usize = n;
    assert(s@.subrange(i as int, j as int) == trim_start_seq(s@));
    while j > i && char_is_whitespace(cs[j - 1])
        invariant
            cs@ == s@,
            n == cs.len(),
            i <= j <= n,
            trim_seq(s@) == trim_end_seq(s@.subrange(i as int, j as int)),
        decreases j - i,
    {
        assert(s@.subrange(i as int, j as int).drop_last() =~= s@.subrange(i as int, j - 1));
        j = j - 1;
    }
    string_from_chars(&cs, i, j)
}

/// The pieces of `pieces`, each without leading and trailing white space.
pub open spec fn trim_all(pieces: Seq<Seq<char>>) -> Seq<Seq<char>> {
    pieces.map_values(|p: Seq<char>| trim_seq(p))
}

/// The non-empty pieces of `pieces`, in order.
pub open spec fn non_empty(pieces: Seq<Seq<char>>) -> Seq<Seq<char>>
    decreases pieces.len(),
{
    if pieces.len() == 0 {
        pieces
    } else {
        let before = non_empty(pieces.drop_last());
        if pieces.last().len() > 0 {
            before.push(pieces.last())
        } else {
            before
        }
    }
}

/// Each of `v`, trimmed.
pub fn trim_each(v: &Vec<String>) -> (res: Vec<String>)
    ensures
        views(res@) == trim_all(views(v@)),
{
    let mut res: Vec<String> = Vec::new();
    let mut i: usize = 0;
    while i < v.len()
        invariant
            i <= v.len(),
            views(res@) == trim_all(views(v@)).take(i as int),
        decreases v.len() - i,
    {
        let ghost before = views(res@);
        let t = trim(v[i].as_str());
        res.push(t);
        assert(views(res@) =~= before.push(trim_seq(v@[i as int]@)));
        i = i + 1;
        assert(views(res@) =~= trim_all(views(v@)).take(i as int));
    }
    assert(trim_all(views(v@)).take(v.len() as int) =~= trim_all(views(v@)));
    res
}

/// `s` with every occurrence of `c` taken out.
pub open spec fn remove_char_seq(s: Seq<char>, c: char) -> Seq<char>
    decreases s.len(),
{
    if s.len() == 0 {
        s
    } else if s.last() == c {
        remove_char_seq(s.drop_last(), c)
    } else {
        remove_char_seq(s.drop_last(), c).push(s.last())
    }
}

/// `s.replace(c, "")`: the string `s` with every occurrence of `c` taken out.
pub fn remove_char(s: &str, c: char) -> (res: String)
    ensures
        res@ == remove_char_seq(s@, c),
{
    let cs = to_chars(s);
    let mut res = String::new();
    let mut i: usize = 0;
    assert(s@.take(0) =~= Seq::<char>::empty());
    while i < cs.len()
        invariant
            cs@ == s@,
            i <= cs.len(),
            res@ == remove_char_seq(s@.take(i as int), c),
        decreases cs.len() - i,
    {
        assert(s@.take(i + 1).drop_last() =~= s@.take(i as int));
        if cs[i] != c {
            push_char(&mut res, cs[i]);
        }
        i = i + 1;
    }
    assert(s@.take(cs.len() as int) =~= s@);
    res
}

// ---------------------------------------------------------------------------
// Decimal numbers
// ---------------------------------------------------------------------------

/// The digit character for `d < 10`.
pub open spec fn digit_char(d: nat) -> char {
    if d == 0 {
        '0'
    } else if d == 1 {
        '1'
    } else if d == 2 {
        '2'
    } else if d == 3 {
        '3'
    } else if d == 4 {
        '4'
    } else if d == 5 {
        '5'
    } else if d == 6 {
        '6'
    } else if d == 7 {
        '7'
    } else if d == 8 {
        '8'
    } else {
        '9'
    }
}

/// The value of an ASCII digit character.
pub open spec fn digit_value(c: char) -> nat {
    ((c as u32) - ('0' as u32)) as nat
}

/// The decimal representation of `n`, without leading zeros.
pub open spec fn decimal(n: nat) -> Seq<char>
    decreases n,
{
    if n < 10 {
        seq![digit_char(n)]
    } else {
        decimal(n / 10).push(digit_char(n % 10))
    }
}

/// Whether every character of `s` is an ASCII decimal digit.
pub open spec fn all_digits(s: Seq<char>) -> bool {
    forall|i: int| 0 <= i < s.len() ==> is_ascii_digit(#[trigger] s[i])
}

/// The value of the decimal digit string `s`.
pub open spec fn decimal_value(s: Seq<char>) -> nat
    decreases s.len(),
{
    if s.len() == 0 {
        0
    } else {
        decimal_value(s.drop_last()) * 10 + digit_value(s.last())
    }
}

/// What `str::parse::<usize>` returns (as an `Option`): an optional `+`
/// sign followed by one or more ASCII digits whose value fits in `usize`.
pub open spec fn parse_usize_seq(s: Seq<char>) -> Option<usize> {
    let d = if s.len() > 0 && s[0] == '+' {
        s.drop_first()
    } else {
        s
    };
    if d.len() > 0 && all_digits(d) && decimal_value(d) <= usize::MAX {
        Some(decimal_value(d) as usize)
    } else {
        None
    }
}

/// Calls `u32::to_string`, which writes `n` in decimal without leading zeros.
#[verifier::external_body]
pub(crate) fn u32_to_string(n: u32) -> (r: String)
    ensures
        r@ == decimal(n as nat),
{
    n.to_string()
}

/// Calls `str::parse::<usize>`. As its documentation states, the string is
/// accepted when it is an optional `+` followed by digits only, and its
/// value fits in `usize`; the error is mapped to `None`.
#[verifier::external_body]
pub(crate) fn parse_usize(s: &str) -> (r: Option<usize>)
    ensures
        r == parse_usize_seq(s@),
{
    s.parse::<usize>().ok()
}

} // verus!
