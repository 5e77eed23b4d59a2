//! Directory listings for the tree view, and the removal of directories that
//! a move left empty.
use vstd::prelude::*;
use crate::names::{is_white, parent_of, parent_preset_path, json_ext, last_slash, lemma_last_slash_bounds};
use crate::text::{push_text, to_owned_text};

verus! {

/// One entry of a directory, as the host read it.
#[derive(Debug, Clone)]
pub struct DirEntryInfo {
    pub name: String,
    pub is_dir: bool,
    pub is_file: bool,
}

/// `s` without leading whitespace.
pub open spec fn trim_start(s: Seq<char>) -> Seq<char>
    decreases s.len(),
{
    if s.len() > 0 && is_white(s[0]) {
        trim_start(s.drop_first())
    } else {
        s
    }
}

/// `s` without trailing whitespace.
pub open spec fn trim_end(s: Seq<char>) -> Seq<char>
    decreases s.len(),
{
    if s.len() > 0 && is_white(s.last()) {
        trim_end(s.drop_last())
    } else {
        s
    }
}

pub open spec fn trimmed(s: Seq<char>) -> Seq<char> {
    trim_end(trim_start(s))
}

/// A file name with a stem and the `.json` extension.
pub open spec fn is_json_name(n: Seq<char>) -> bool {
    n.len() > json_ext().len() && n.subrange(n.len() - json_ext().len(), n.len() as int) == json_ext()
}

/// How an entry shows in the tree view: a directory with a trailing `/`, a
/// patch file by its trimmed stem; other entries not at all.
pub open spec fn label_for(name: Seq<char>, is_dir: bool, is_file: bool) -> Seq<Seq<char>> {
    if is_dir {
        seq![name.push('/')]
    } else if is_file && is_json_name(name) {
        seq![trimmed(name.subrange(0, name.len() - json_ext().len()))]
    } else {
        Seq::empty()
    }
}

pub open spec fn entry_label(e: DirEntryInfo) -> Seq<Seq<char>> {
    label_for(e.name@, e.is_dir, e.is_file)
}

/// The labels of a listing, in its order.
pub open spec fn dir_labels(listing: Seq<DirEntryInfo>) -> Seq<Seq<char>>
    decreases listing.len(),
{
    if listing.len() == 0 {
        Seq::empty()
    } else {
        dir_labels(listing.drop_last()) + entry_label(listing.last())
    }
}

/// A directory path that may be listed: not absolute, no `..`.
pub open spec fn listable_path(p: Seq<char>) -> bool {
    &&& !(p.len() > 0 && p[0] == '/')
    &&& forall|i: int| 0 <= i < p.len() - 1 ==> !(p[i] == '.' && #[trigger] p[i + 1] == '.')
}

/// Whether `path` may be listed.
pub fn is_listable_path(path: &str) -> (r: bool)
    ensures
        r == listable_path(path@),
{
    let n = path.unicode_len();
    if n > 0 && path.get_char(0) == '/' {
        return false;
    }
    let mut i: usize = 1;
    while i < n
        invariant
            n == path@.len(),
            1 <= i,
            forall|j: int| 0 <= j < i - 1 && j < n - 1 ==> !(path@[j] == '.' && #[trigger] path@[j + 1] == '.'),
        decreases n - i,
    {
        if path.get_char(i - 1) == '.' && path.get_char(i) == '.' {
            assert(path@[i - 1] == '.' && path@[(i - 1) + 1] == '.');
            return false;
        }
        i = i + 1;
    }
    true
}

/// `s` without surrounding whitespace.
pub fn trim_text(s: &str) -> (r: String)
    ensures
        r@ == trimmed(s@),
{
    let n = s.unicode_len();
    let mut a: usize = 0;
    assert(s@.subrange(0, n as int) =~= s@);
    while a < n && crate::names::white_char(s.get_char(a))
        invariant
            n == s@.len(),
            a <= n,
            trim_start(s@) == trim_start(s@.subrange(a as int, n as int)),
        decreases n - a,
    {
        let ghost t = s@.subrange(a as int, n as int);
        assert(t.drop_first() =~= s@.subrange(a + 1, n as int));
        a = a + 1;
    }
    let ghost t = s@.subrange(a as int, n as int);
    assert(s@.subrange(0, n as int) =~= s@);
    assert(trim_start(t) == t);
    let mut b: usize = n;
    while b > a && crate::names::white_char(s.get_char(b - 1))
        invariant
            n == s@.len(),
            a <= b <= n,
            trimmed(s@) == trim_end(s@.subrange(a as int, b as int)),
        decreases b,
    {
        let ghost u = s@.subrange(a as int, b as int);
        assert(u.drop_last() =~= s@.subrange(a as int, b - 1));
        b = b - 1;
    }
    let ghost u = s@.subrange(a as int, b as int);
    assert(trim_end(u) == u);
    to_owned_text(s.substring_char(a, b))
}

/// Whether `name` has a stem and the `.json` extension.
pub fn is_json_file_name(name: &str) -> (r: bool)
    ensures
        r == is_json_name(name@),
{
    let n = name.unicode_len();
    if n <= 5 {
        return false;
    }
    let tail = name.substring_char(n - 5, n);
    let ext = ['.', 'j', 's', 'o', 'n'];
    let mut k: usize = 0;
    while k < 5
        invariant
            n > 5,
            tail@.len() == 5,
            tail@ == name@.subrange(n - 5, n as int),
            n == name@.len(),
            ext@ == json_ext(),
            k <= 5,
            forall|j: int| 0 <= j < k ==> tail@[j] == ext@[j],
        decreases 5 - k,
    {
        if tail.get_char(k) != ext[k] {
            assert(tail@[k as int] != json_ext()[k as int]);
            return false;
        }
        k = k + 1;
    }
    assert(tail@ =~= json_ext());
    true
}

/// The label of one entry, if it shows.
fn label_of(e: &DirEntryInfo) -> (r: Option<String>)
    ensures
        match r {
            Some(l) => entry_label(*e) == seq![l@],
            None => entry_label(*e) == Seq::<Seq<char>>::empty(),
        },
{
    if e.is_dir {
        let mut l = to_owned_text(e.name.as_str());
        l.push('/');
        return Some(l);
    }
    if !e.is_file {
        return None;
    }
    if !is_json_file_name(e.name.as_str()) {
        return None;
    }
    let n = e.name.as_str().unicode_len();
    let stem = e.name.as_str().substring_char(0, n - 5);
    Some(trim_text(stem))
}

/// The labels that the tree view shows for a directory listing.
pub fn get_dir_entries(listing: &Vec<DirEntryInfo>) -> (r: Vec<String>)
    ensures
        r@.map_values(|s: String| s@) == dir_labels(listing@),
{
    let mut r: Vec<String> = Vec::new();
    let mut i: usize = 0;
    while i < listing.len()
        invariant
            i <= listing@.len(),
            r@.map_values(|s: String| s@) == dir_labels(listing@.subrange(0, i as int)),
        decreases listing@.len() - i,
    {
        let ghost before = r@;
        let ghost pre = listing@.subrange(0, i + 1);
        assert(pre.drop_last() =~= listing@.subrange(0, i as int));
        assert(pre.last() == listing@[i as int]);
        match label_of(&listing[i]) {
            Some(l) => {
                r.push(l);
                assert(r@.map_values(|s: String| s@) =~= before.map_values(|s: String| s@) + entry_label(listing@[i as int]));
            },
            None => {
                assert(r@.map_values(|s: String| s@) =~= before.map_values(|s: String| s@) + entry_label(listing@[i as int]));
            },
        }
        i = i + 1;
    }
    assert(listing@.subrange(0, listing@.len() as int) =~= listing@);
    r
}

/// One step of removing emptied directories, walking up from the directory a
/// move left behind: the relative directory `dir` goes when it is empty and
/// is not the root (the empty path). The result is its parent, the
/// directory to announce and to look at next; `None` ends the walk.
pub fn cleanup_step(dir: &str, dir_is_empty: bool) -> (r: Option<String>)
    ensures
        dir@.len() > 0 && dir_is_empty ==> (r matches Some(p) && p@ == parent_of(dir@)),
        !(dir@.len() > 0 && dir_is_empty) ==> r is None,
{
    if dir.unicode_len() == 0 || !dir_is_empty {
        None
    } else {
        Some(parent_preset_path(dir))
    }
}


/// The `i`-th ancestor of a relative directory: itself, its parent, ...
pub open spec fn ancestor(dir: Seq<char>, i: nat) -> Seq<char>
    decreases i,
{
    if i == 0 {
        dir
    } else {
        parent_of(ancestor(dir, (i - 1) as nat))
    }
}

proof fn lemma_parent_shorter(dir: Seq<char>)
    ensures
        dir.len() > 0 ==> parent_of(dir).len() < dir.len(),
        parent_of(dir).len() <= dir.len(),
{
    lemma_last_slash_bounds(dir);
}

/// The directories announced when `cleanup_step` is driven from `dir` and
/// each directory in `empty` is found empty when it is looked at.
pub open spec fn cleanup_trace(dir: Seq<char>, empty: Set<Seq<char>>) -> Seq<Seq<char>>
    decreases dir.len(),
{
    if dir.len() > 0 && empty.contains(dir) {
        if parent_of(dir).len() < dir.len() {
            seq![parent_of(dir)] + cleanup_trace(parent_of(dir), empty)
        } else {
            Seq::empty()
        }
    } else {
        Seq::empty()
    }
}

/// Each removal of an emptied directory announces its parent once, and the
/// walk goes up ancestor by ancestor until it meets the root or a directory
/// that is not empty.
pub proof fn lemma_cleanup_walk(dir: Seq<char>, empty: Set<Seq<char>>)
    ensures
        ({
            let t = cleanup_trace(dir, empty);
            &&& forall|i: int|
                0 <= i < t.len() ==> #[trigger] t[i] == ancestor(dir, (i + 1) as nat) && ancestor(
                    dir,
                    i as nat,
                ).len() > 0 && empty.contains(ancestor(dir, i as nat))
            &&& !(ancestor(dir, t.len()).len() > 0 && empty.contains(ancestor(dir, t.len())))
            &&& forall|i: int| 0 <= i < t.len() ==> #[trigger] ancestor(dir, (i + 1) as nat).len() < ancestor(
                dir,
                i as nat,
            ).len()
        }),
    decreases dir.len(),
{
    lemma_parent_shorter(dir);
    let t = cleanup_trace(dir, empty);
    if dir.len() > 0 && empty.contains(dir) {
        let p = parent_of(dir);
        lemma_cleanup_walk(p, empty);
        let tp = cleanup_trace(p, empty);
        assert(t == seq![p] + tp);
        assert forall|i: int| 0 <= i < t.len() implies #[trigger] t[i] == ancestor(dir, (i + 1) as nat)
            && ancestor(dir, i as nat).len() > 0 && empty.contains(ancestor(dir, i as nat)) by {
            lemma_ancestor_shift(dir, i as nat);
            if i > 0 {
                assert(t[i] == tp[i - 1]);
                lemma_ancestor_shift(dir, (i - 1) as nat);
            }
        }
        lemma_ancestor_shift(dir, tp.len());
        assert(ancestor(dir, t.len()) == ancestor(p, tp.len()));
        assert forall|i: int| 0 <= i < t.len() implies #[trigger] ancestor(dir, (i + 1) as nat).len() < ancestor(
            dir,
            i as nat,
        ).len() by {
            lemma_ancestor_shift(dir, i as nat);
            if i == 0 {
                lemma_ancestor_shift(dir, 0);
                assert(ancestor(dir, 1) == p);
            } else {
                let i1 = i - 1;
                lemma_ancestor_shift(dir, i1 as nat);
                assert(0 <= i1 < tp.len());
                assert(ancestor(p, (i1 + 1) as nat).len() < ancestor(p, i1 as nat).len());
            }
        }
    }
}

proof fn lemma_ancestor_shift(dir: Seq<char>, i: nat)
    ensures
        ancestor(dir, i + 1) == ancestor(parent_of(dir), i),
    decreases i,
{
    assert(ancestor(dir, i + 1) == parent_of(ancestor(dir, i)));
    if i > 0 {
        lemma_ancestor_shift(dir, (i - 1) as nat);
        assert(ancestor(parent_of(dir), i) == parent_of(ancestor(parent_of(dir), (i - 1) as nat)));
    }
}

} // verus!
