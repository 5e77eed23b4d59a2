//! Logical names: validation, parent and base name, and the file path of a name.
use vstd::prelude::*;
use crate::text::{push_text, same_text, to_owned_text};

verus! {

/// Characters that may never appear in a logical name.
pub open spec fn is_forbidden_char(c: char) -> bool {
    c == '\\' || c == ':' || c == '*' || c == '?' || c == '"' || c == '<' || c == '>' || c == '|'
}

/// Unicode `White_Space`, the characters that `str::trim` removes.
pub open spec fn is_white(c: char) -> bool {
    ('\u{9}' <= c && c <= '\u{d}') || c == ' ' || c == '\u{85}' || c == '\u{a0}' || c == '\u{1680}'
        || ('\u{2000}' <= c && c <= '\u{200a}') || c == '\u{2028}' || c == '\u{2029}'
        || c == '\u{202f}' || c == '\u{205f}' || c == '\u{3000}'
}

/// Nothing is left of `s` once whitespace is trimmed.
pub open spec fn is_blank(s: Seq<char>) -> bool {
    forall|i: int| 0 <= i < s.len() ==> is_white(#[trigger] s[i])
}

pub open spec fn has_forbidden_char(s: Seq<char>) -> bool {
    exists|i: int| 0 <= i < s.len() && is_forbidden_char(#[trigger] s[i])
}

/// The slash at `i` opens or closes the name, or is doubled.
pub open spec fn bad_slash_at(s: Seq<char>, i: int) -> bool {
    s[i] == '/' && (i == 0 || i == s.len() - 1 || s[i + 1] == '/')
}

/// A segment that starts at `i` is `.` or `..`.
pub open spec fn dot_segment_at(s: Seq<char>, i: int) -> bool {
    &&& (i == 0 || s[i - 1] == '/')
    &&& s[i] == '.'
    &&& (i + 1 == s.len() || s[i + 1] == '/' || (s[i + 1] == '.' && (i + 2 == s.len() || s[i + 2]
        == '/')))
}

/// A valid logical name: not blank, no forbidden character, no empty segment
/// (leading, trailing or doubled `/`), and no segment `.` or `..`.
pub open spec fn valid_name(s: Seq<char>) -> bool {
    &&& !is_blank(s)
    &&& !has_forbidden_char(s)
    &&& forall|i: int| 0 <= i < s.len() ==> !bad_slash_at(s, i)
    &&& forall|i: int| 0 <= i < s.len() ==> !dot_segment_at(s, i)
}

/// Index of the last `/` in `s`, or -1.
pub open spec fn last_slash(s: Seq<char>) -> int
    decreases s.len(),
{
    if s.len() == 0 {
        -1
    } else if s.last() == '/' {
        s.len() - 1
    } else {
        last_slash(s.drop_last())
    }
}

/// The text before the last `/`, or empty.
pub open spec fn parent_of(s: Seq<char>) -> Seq<char> {
    if last_slash(s) < 0 {
        Seq::empty()
    } else {
        s.subrange(0, last_slash(s))
    }
}

/// The text after the last `/`, or all of `s`.
pub open spec fn base_of(s: Seq<char>) -> Seq<char> {
    s.subrange(last_slash(s) + 1, s.len() as int)
}

/// `base` placed in directory `dir`; the empty directory is the root.
pub open spec fn join_name(dir: Seq<char>, base: Seq<char>) -> Seq<char> {
    if dir.len() == 0 {
        base
    } else {
        dir + seq!['/'] + base
    }
}

pub open spec fn json_ext() -> Seq<char> {
    seq!['.', 'j', 's', 'o', 'n']
}

/// The file of name `name` under the directory `root`: each segment but the
/// last is a directory, and the last gets the `.json` extension.
pub open spec fn path_of(root: Seq<char>, name: Seq<char>) -> Seq<char> {
    root + seq!['/'] + name + json_ext()
}

/// The directory of the repository under a home directory.
pub open spec fn presets_dir_of(home: Seq<char>) -> Seq<char> {
    home + seq!['/', '.', 'm', 'o', 'd', 'u', 'l', 'a', 'r', '_', 'a', 'g', 'e', 'n', 't', '/', 'p',
        'r', 'e', 's', 'e', 't', 's']
}

fn forbidden_char(c: char) -> (r: bool)
    ensures
        r == is_forbidden_char(c),
{
    c == '\\' || c == ':' || c == '*' || c == '?' || c == '"' || c == '<' || c == '>' || c == '|'
}

pub(crate) fn white_char(c: char) -> (r: bool)
    ensures
        r == is_white(c),
{
    ('\u{9}' <= c && c <= '\u{d}') || c == ' ' || c == '\u{85}' || c == '\u{a0}' || c == '\u{1680}'
        || ('\u{2000}' <= c && c <= '\u{200a}') || c == '\u{2028}' || c == '\u{2029}'
        || c == '\u{202f}' || c == '\u{205f}' || c == '\u{3000}'
}

/// Whether `name` is a valid logical name.
pub fn is_valid_preset_name(name: &str) -> (r: bool)
    ensures
        r == valid_name(name@),
{
    let n = name.unicode_len();
    let ghost s = name@;
    let mut blank = true;
    let mut i: usize = 0;
    while i < n
        invariant
            n == s.len(),
            s == name@,
            i <= n,
            blank == (forall|j: int| 0 <= j < i ==> is_white(#[trigger] s[j])),
            forall|j: int| 0 <= j < i ==> !is_forbidden_char(#[trigger] s[j]),
            forall|j: int| 0 <= j < i ==> !bad_slash_at(s, j),
            forall|j: int| 0 <= j < i ==> !dot_segment_at(s, j),
        decreases n - i,
    {
        let c = name.get_char(i);
        if forbidden_char(c) {
            assert(has_forbidden_char(s)) by {
                assert(is_forbidden_char(s[i as int]));
            }
            return false;
        }
        if c == '/' {
            if i == 0 || i + 1 == n || name.get_char(i + 1) == '/' {
                assert(bad_slash_at(s, i as int));
                return false;
            }
        }
        if c == '.' && (i == 0 || name.get_char(i - 1) == '/') {
            let closes = if i + 1 == n {
                true
            } else {
                let d = name.get_char(i + 1);
                d == '/' || (d == '.' && (i + 2 == n || name.get_char(i + 2) == '/'))
            };
            if closes {
                assert(dot_segment_at(s, i as int));
                return false;
            }
        }
        if !white_char(c) {
            blank = false;
        }
        i = i + 1;
    }
    if blank {
        assert(is_blank(s));
        return false;
    }
    true
}

/// Index of the last `/` of `s`, if any.
fn find_last_slash(s: &str) -> (r: Option<usize>)
    ensures
        match r {
            Some(k) => k == last_slash(s@),
            None => last_slash(s@) == -1,
        },
{
    let n = s.unicode_len();
    let mut i: usize = n;
    assert(s@.subrange(0, n as int) =~= s@);
    while i > 0
        invariant
            n == s@.len(),
            i <= n,
            last_slash(s@) == last_slash(s@.subrange(0, i as int)),
        decreases i,
    {
        let ghost p = s@.subrange(0, i as int);
        assert(p.drop_last() =~= s@.subrange(0, i - 1));
        if s.get_char(i - 1) == '/' {
            return Some(i - 1);
        }
        i = i - 1;
    }
    assert(s@.subrange(0, 0) =~= Seq::<char>::empty());
    None
}

pub proof fn lemma_last_slash_bounds(s: Seq<char>)
    ensures
        -1 <= last_slash(s) < s.len(),
        last_slash(s) >= 0 ==> s[last_slash(s)] == '/',
        forall|j: int| last_slash(s) < j < s.len() ==> s[j] != '/',
    decreases s.len(),
{
    if s.len() > 0 && s.last() != '/' {
        lemma_last_slash_bounds(s.drop_last());
        assert forall|j: int| last_slash(s) < j < s.len() implies s[j] != '/' by {
            if j < s.len() - 1 {
                assert(s[j] == s.drop_last()[j]);
            }
        }
    }
}

/// The parent path of a name: the text before its last `/`, or empty.
pub fn parent_preset_path(name: &str) -> (r: String)
    ensures
        r@ == parent_of(name@),
{
    proof {
        lemma_last_slash_bounds(name@);
    }
    match find_last_slash(name) {
        Some(k) => to_owned_text(name.substring_char(0, k)),
        None => String::new(),
    }
}

/// The last segment of a name.
pub fn base_name(name: &str) -> (r: String)
    ensures
        r@ == base_of(name@),
{
    proof {
        lemma_last_slash_bounds(name@);
    }
    let n = name.unicode_len();
    match find_last_slash(name) {
        Some(k) => to_owned_text(name.substring_char(k + 1, n)),
        None => to_owned_text(name),
    }
}

/// `base` placed under the directory `dir` (the root when `dir` is empty).
pub fn join_preset_name(dir: &str, base: &str) -> (r: String)
    ensures
        r@ == join_name(dir@, base@),
{
    if dir.unicode_len() == 0 {
        to_owned_text(base)
    } else {
        let mut r = to_owned_text(dir);
        r.push('/');
        push_text(&mut r, base);
        r
    }
}

/// The file path of the name `name` under the directory `root`.
pub fn preset_path(root: &str, name: &str) -> (r: String)
    ensures
        r@ == path_of(root@, name@),
{
    let mut r = to_owned_text(root);
    r.push('/');
    push_text(&mut r, name);
    r.push('.');
    r.push('j');
    r.push('s');
    r.push('o');
    r.push('n');
    assert(r@ =~= path_of(root@, name@));
    r
}

/// The repository's directory under the home directory `home`.
pub fn presets_dir(home: &str) -> (r: String)
    ensures
        r@ == presets_dir_of(home@),
{
    let mut r = to_owned_text(home);
    let tail = ['/', '.', 'm', 'o', 'd', 'u', 'l', 'a', 'r', '_', 'a', 'g', 'e', 'n', 't', '/', 'p',
        'r', 'e', 's', 'e', 't', 's'];
    let mut i: usize = 0;
    while i < 23
        invariant
            i <= 23,
            r@ == home@ + tail@.subrange(0, i as int),
        decreases 23 - i,
    {
        r.push(tail[i]);
        i = i + 1;
        assert(r@ =~= home@ + tail@.subrange(0, i as int));
    }
    assert(tail@ =~= seq!['/', '.', 'm', 'o', 'd', 'u', 'l', 'a', 'r', '_', 'a', 'g', 'e', 'n', 't', '/', 'p',
        'r', 'e', 's', 'e', 't', 's']);
    assert(r@ =~= presets_dir_of(home@));
    r
}

pub open spec fn digit_char(d: nat) -> char {
    if d == 0 { '0' } else if d == 1 { '1' } else if d == 2 { '2' } else if d == 3 { '3' }
    else if d == 4 { '4' } else if d == 5 { '5' } else if d == 6 { '6' } else if d == 7 { '7' }
    else if d == 8 { '8' } else { '9' }
}

/// The decimal representation of `n`.
pub open spec fn decimal(n: nat) -> Seq<char>
    decreases n,
{
    if n < 10 {
        seq![digit_char(n)]
    } else {
        decimal(n / 10).push(digit_char(n % 10))
    }
}

/// The `k`-th name probed for a free slot: `base`, `base copy`,
/// `base copy 2`, `base copy 3`, ...
pub open spec fn copy_candidate(base: Seq<char>, k: nat) -> Seq<char> {
    if k == 0 {
        base
    } else if k == 1 {
        base + seq![' ', 'c', 'o', 'p', 'y']
    } else {
        base + seq![' ', 'c', 'o', 'p', 'y', ' '] + decimal(k)
    }
}

/// The names of a list of strings, as a set.
pub open spec fn name_set(v: Seq<String>) -> Set<Seq<char>> {
    v.map_values(|s: String| s@).to_set()
}

/// The first free name in the probe sequence of `base`.
pub open spec fn is_first_free(base: Seq<char>, taken: Set<Seq<char>>, r: Seq<char>) -> bool {
    exists|k: nat|
        {
            &&& r == copy_candidate(base, k)
            &&& !taken.contains(r)
            &&& forall|j: nat| j < k ==> taken.contains(#[trigger] copy_candidate(base, j))
        }
}

proof fn lemma_digit_injective(a: nat, b: nat)
    requires
        a < 10,
        b < 10,
        digit_char(a) == digit_char(b),
    ensures
        a == b,
{
}

proof fn lemma_decimal_nonempty(n: nat)
    ensures
        decimal(n).len() >= 1,
        n >= 10 ==> decimal(n).len() >= 2,
    decreases n,
{
    if n >= 10 {
        lemma_decimal_nonempty(n / 10);
    }
}

proof fn lemma_decimal_injective(a: nat, b: nat)
    requires
        decimal(a) == decimal(b),
    ensures
        a == b,
    decreases a,
{
    lemma_decimal_nonempty(a);
    lemma_decimal_nonempty(b);
    if a < 10 && b < 10 {
        assert(decimal(a)[0] == digit_char(a));
        assert(decimal(b)[0] == digit_char(b));
        lemma_digit_injective(a, b);
    } else if a >= 10 && b >= 10 {
        let da = decimal(a);
        let db = decimal(b);
        assert(da.last() == digit_char(a % 10));
        assert(db.last() == digit_char(b % 10));
        lemma_digit_injective(a % 10, b % 10);
        assert(da.drop_last() =~= decimal(a / 10));
        assert(db.drop_last() =~= decimal(b / 10));
        lemma_decimal_injective(a / 10, b / 10);
        assert(a == 10 * (a / 10) + a % 10);
        assert(b == 10 * (b / 10) + b % 10);
    } else {
        assert(decimal(a).len() != decimal(b).len());
    }
}

/// Distinct probe positions give distinct names.
pub proof fn lemma_copy_candidate_injective(base: Seq<char>, i: nat, j: nat)
    requires
        copy_candidate(base, i) == copy_candidate(base, j),
    ensures
        i == j,
{
    lemma_decimal_nonempty(i);
    lemma_decimal_nonempty(j);
    let ci = copy_candidate(base, i);
    let cj = copy_candidate(base, j);
    if i >= 2 && j >= 2 {
        let off = base.len() + 6int;
        assert(ci.subrange(off, ci.len() as int) =~= decimal(i));
        assert(cj.subrange(off, cj.len() as int) =~= decimal(j));
        lemma_decimal_injective(i, j);
    } else if i != j {
        let five = seq![' ', 'c', 'o', 'p', 'y'];
        let six = seq![' ', 'c', 'o', 'p', 'y', ' '];
        assert(i == 0 ==> ci.len() == base.len());
        assert(i == 1 ==> ci.len() == base.len() + five.len());
        assert(i >= 2 ==> ci.len() == base.len() + six.len() + decimal(i).len());
        assert(j == 0 ==> cj.len() == base.len());
        assert(j == 1 ==> cj.len() == base.len() + five.len());
        assert(j >= 2 ==> cj.len() == base.len() + six.len() + decimal(j).len());
    }
}

fn digit_of(d: u64) -> (c: char)
    requires
        d < 10,
    ensures
        c == digit_char(d as nat),
{
    if d == 0 { '0' } else if d == 1 { '1' } else if d == 2 { '2' } else if d == 3 { '3' }
    else if d == 4 { '4' } else if d == 5 { '5' } else if d == 6 { '6' } else if d == 7 { '7' }
    else if d == 8 { '8' } else { '9' }
}

/// Appends the decimal representation of `n` to `r`.
fn push_decimal(r: &mut String, n: u64)
    ensures
        final(r)@ == old(r)@ + decimal(n as nat),
    decreases n,
{
    if n >= 10 {
        push_decimal(r, n / 10);
    }
    r.push(digit_of(n % 10));
    assert(final(r)@ =~= old(r)@ + decimal(n as nat));
}

/// The `k`-th name probed for a free slot.
fn copy_name(base: &str, k: u64) -> (r: String)
    ensures
        r@ == copy_candidate(base@, k as nat),
{
    let mut r = to_owned_text(base);
    if k == 0 {
        return r;
    }
    r.push(' ');
    r.push('c');
    r.push('o');
    r.push('p');
    r.push('y');
    if k == 1 {
        assert(r@ =~= copy_candidate(base@, k as nat));
        return r;
    }
    r.push(' ');
    push_decimal(&mut r, k);
    assert(r@ =~= copy_candidate(base@, k as nat));
    r
}

/// Whether `name` is among the names whose files already exist.
pub fn preset_path_exists(taken: &Vec<String>, name: &str) -> (r: bool)
    ensures
        r == name_set(taken@).contains(name@),
{
    let ghost names = taken@.map_values(|s: String| s@);
    let mut i: usize = 0;
    while i < taken.len()
        invariant
            i <= taken.len(),
            names == taken@.map_values(|s: String| s@),
            forall|j: int| 0 <= j < i ==> taken@[j]@ != name@,
        decreases taken.len() - i,
    {
        if same_text(taken[i].as_str(), name) {
            assert(names[i as int] == name@);
            assert(names.to_set().contains(name@));
            return true;
        }
        i = i + 1;
    }
    assert(!names.to_set().contains(name@)) by {
        if names.to_set().contains(name@) {
            let j = choose|j: int| 0 <= j < names.len() && names[j] == name@;
            assert(taken@[j]@ == name@);
        }
    }
    false
}

/// The first name of the sequence `base`, `base copy`, `base copy 2`, ...
/// that is not among `taken`, the names whose files already exist.
pub fn unique_preset_name(base: &str, taken: &Vec<String>) -> (r: String)
    ensures
        is_first_free(base@, name_set(taken@), r@),
{
    let ghost tset = name_set(taken@);
    let ghost mut seen: Set<Seq<char>> = Set::empty();
    proof {
        taken@.map_values(|s: String| s@).lemma_cardinality_of_set();
    }
    let mut k: usize = 0;
    let total = taken.len();
    loop
        invariant
            total == taken@.len(),
            tset == name_set(taken@),
            tset.len() <= taken@.len(),
            tset.finite(),
            k <= taken@.len(),
            seen.finite(),
            seen.len() == k,
            seen.subset_of(tset),
            forall|c: Seq<char>| #[trigger] seen.contains(c) ==> exists|j: nat| j < k && c
                == copy_candidate(base@, j),
            forall|j: nat| j < k ==> #[trigger] tset.contains(copy_candidate(base@, j)),
        decreases taken@.len() - k,
    {
        let cand = copy_name(base, k as u64);
        if !preset_path_exists(taken, cand.as_str()) {
            return cand;
        }
        proof {
            if seen.contains(cand@) {
                let j = choose|j: nat| j < k && cand@ == copy_candidate(base@, j);
                lemma_copy_candidate_injective(base@, j, k as nat);
            }
            let old_seen = seen;
            seen = seen.insert(cand@);
            assert(seen.len() == k + 1);
            assert(tset.contains(cand@));
            assert(seen.subset_of(tset));
            vstd::set_lib::lemma_len_subset(seen, tset);
            assert(k + 1 <= taken@.len());
            assert forall|c: Seq<char>| #[trigger] seen.contains(c) implies exists|j: nat| j < k + 1 && c
                == copy_candidate(base@, j) by {
                if c != cand@ {
                    assert(old_seen.contains(c));
                }
            }
        }
        k = k + 1;
    }
}


/// The name that a path under `root` stands for: what lies between `root/`
/// and the `.json` extension.
pub open spec fn name_of_path(root: Seq<char>, p: Seq<char>) -> Seq<char> {
    p.subrange(root.len() + 1int, p.len() - json_ext().len())
}

/// The path of a valid name lies under `root/`, ends in `.json`, and reading
/// it back between the two gives the name again, with each `/` of the name a
/// directory separator of the path.
pub proof fn lemma_path_round_trip(root: Seq<char>, n: Seq<char>)
    requires
        valid_name(n),
    ensures
        path_of(root, n).subrange(0, root.len() + 1int) == root.push('/'),
        path_of(root, n).subrange(path_of(root, n).len() - json_ext().len(), path_of(root, n).len() as int)
            == json_ext(),
        name_of_path(root, path_of(root, n)) == n,
        forall|i: int| 0 <= i < n.len() ==> (#[trigger] path_of(root, n)[root.len() + 1 + i] == '/') == (n[i]
            == '/'),
{
    let p = path_of(root, n);
    assert(p.subrange(0, root.len() + 1int) =~= root.push('/'));
    assert(p.subrange(p.len() - json_ext().len(), p.len() as int) =~= json_ext());
    assert(name_of_path(root, p) =~= n);
}

/// Importing the same file twice into one directory: the first import takes
/// the bare name, the second, which sees the first file, takes `name copy`.
pub proof fn lemma_import_twice(base: Seq<char>, first: Seq<char>, second: Seq<char>)
    requires
        is_first_free(base, Set::empty(), first),
        is_first_free(base, Set::empty().insert(first), second),
    ensures
        first == base,
        second == base + seq![' ', 'c', 'o', 'p', 'y'],
        first != second,
{
    let k1 = choose|k: nat|
        {
            &&& first == copy_candidate(base, k)
            &&& !Set::<Seq<char>>::empty().contains(first)
            &&& forall|j: nat| j < k ==> Set::<Seq<char>>::empty().contains(#[trigger] copy_candidate(base, j))
        };
    if k1 > 0 {
        assert(Set::<Seq<char>>::empty().contains(copy_candidate(base, 0)));
    }
    let taken = Set::<Seq<char>>::empty().insert(first);
    let k2 = choose|k: nat|
        {
            &&& second == copy_candidate(base, k)
            &&& !taken.contains(second)
            &&& forall|j: nat| j < k ==> taken.contains(#[trigger] copy_candidate(base, j))
        };
    if k2 == 0 {
        assert(taken.contains(second));
    } else if k2 >= 2 {
        assert(taken.contains(copy_candidate(base, 1)));
        lemma_copy_candidate_injective(base, 0, 1);
    }
    assert(copy_candidate(base, 1) != copy_candidate(base, 0)) by {
        if copy_candidate(base, 1) == copy_candidate(base, 0) {
            lemma_copy_candidate_injective(base, 0, 1);
        }
    }
}


/// Characters that `copy_candidate` appends: no slash, dot or forbidden one.
pub open spec fn plain_suffix_char(c: char) -> bool {
    c == ' ' || ('a' <= c && c <= 'z') || ('0' <= c && c <= '9')
}

proof fn lemma_decimal_plain(n: nat)
    ensures
        forall|i: int| 0 <= i < decimal(n).len() ==> plain_suffix_char(#[trigger] decimal(n)[i]),
    decreases n,
{
    if n >= 10 {
        lemma_decimal_plain(n / 10);
        let d = decimal(n);
        assert forall|i: int| 0 <= i < d.len() implies plain_suffix_char(#[trigger] d[i]) by {
            if i < d.len() - 1 {
                assert(d[i] == decimal(n / 10)[i]);
            }
        }
    }
}

/// A valid name stays valid with a suffix of plain characters that begins
/// with a space.
proof fn lemma_plain_suffix_valid(base: Seq<char>, suffix: Seq<char>)
    requires
        valid_name(base),
        suffix.len() > 0,
        suffix[0] == ' ',
        forall|i: int| 0 <= i < suffix.len() ==> plain_suffix_char(#[trigger] suffix[i]),
    ensures
        valid_name(base + suffix),
{
    let s = base + suffix;
    let b = base.len() as int;
    assert forall|i: int| b <= i < s.len() implies plain_suffix_char(#[trigger] s[i]) by {
        assert(s[i] == suffix[i - b]);
    }
    assert forall|i: int| 0 <= i < b implies #[trigger] s[i] == base[i] by {}
    assert(!is_blank(s)) by {
        let j = choose|j: int| 0 <= j < b && !is_white(#[trigger] base[j]);
        assert(s[j] == base[j]);
    }
    assert(!has_forbidden_char(s)) by {
        if has_forbidden_char(s) {
            let j = choose|j: int| 0 <= j < s.len() && is_forbidden_char(#[trigger] s[j]);
            if j < b {
                assert(s[j] == base[j]);
            } else {
                assert(plain_suffix_char(s[j]));
            }
        }
    }
    assert forall|i: int| 0 <= i < s.len() implies !bad_slash_at(s, i) by {
        if i < b {
            assert(!bad_slash_at(base, i));
            if i + 1 < b {
                assert(s[i + 1] == base[i + 1]);
            } else {
                assert(s[i + 1] == suffix[0]);
            }
        } else {
            assert(plain_suffix_char(s[i]));
        }
    }
    assert forall|i: int| 0 <= i < s.len() implies !dot_segment_at(s, i) by {
        if i < b {
            assert(!dot_segment_at(base, i));
            if i > 0 {
                assert(s[i - 1] == base[i - 1]);
            }
            if i + 1 < b {
                assert(s[i + 1] == base[i + 1]);
                if i + 2 < b {
                    assert(s[i + 2] == base[i + 2]);
                } else if i + 2 == b {
                    assert(s[i + 2] == suffix[0]);
                }
            } else {
                assert(s[i + 1] == suffix[0]);
            }
        } else {
            assert(plain_suffix_char(s[i]));
        }
    }
}

/// Every name probed for a valid base is valid.
pub proof fn lemma_copy_candidate_valid(base: Seq<char>, k: nat)
    requires
        valid_name(base),
    ensures
        valid_name(copy_candidate(base, k)),
{
    let five = seq![' ', 'c', 'o', 'p', 'y'];
    let six = seq![' ', 'c', 'o', 'p', 'y', ' '];
    if k == 1 {
        assert forall|i: int| 0 <= i < five.len() implies plain_suffix_char(#[trigger] five[i]) by {}
        lemma_plain_suffix_valid(base, five);
    } else if k >= 2 {
        lemma_decimal_plain(k);
        let suffix = six + decimal(k);
        assert forall|i: int| 0 <= i < suffix.len() implies plain_suffix_char(#[trigger] suffix[i]) by {
            if i >= 6 {
                assert(suffix[i] == decimal(k)[i - 6]);
            }
        }
        lemma_plain_suffix_valid(base, suffix);
        assert(copy_candidate(base, k) =~= base + suffix);
    }
}

} // verus!
