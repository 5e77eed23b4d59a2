//! Keeping the auto-start list of names in step with renames and moves.
use vstd::prelude::*;
use crate::registry::has_prefix;
use crate::text::{concat_text, same_text, starts_with_text, suffix_text, to_owned_text};

verus! {

/// An entry after the name `old` became `new`: exact match only.
pub open spec fn renamed_entry(e: Seq<char>, old: Seq<char>, new: Seq<char>) -> Seq<char> {
    if e == old {
        new
    } else {
        e
    }
}

/// `e` with its leading `old_prefix` replaced by `new_prefix`.
pub open spec fn rebased(e: Seq<char>, old_prefix: Seq<char>, new_prefix: Seq<char>) -> Seq<char> {
    new_prefix + e.subrange(old_prefix.len() as int, e.len() as int)
}

/// An entry after every name under `old_prefix` moved under `new_prefix`.
pub open spec fn rebased_entry(e: Seq<char>, old_prefix: Seq<char>, new_prefix: Seq<char>) -> Seq<char> {
    if has_prefix(e, old_prefix) {
        rebased(e, old_prefix, new_prefix)
    } else {
        e
    }
}

/// Replaces each entry equal to `old_name` by `new_name`, in place; says
/// whether any entry changed.
pub fn update_auto_start_presets(list: &mut Vec<String>, old_name: &str, new_name: &str) -> (r: bool)
    ensures
        final(list)@.len() == old(list)@.len(),
        forall|i: int|
            0 <= i < old(list)@.len() ==> #[trigger] final(list)@[i]@ == renamed_entry(
                old(list)@[i]@,
                old_name@,
                new_name@,
            ),
        r == exists|i: int| 0 <= i < old(list)@.len() && #[trigger] old(list)@[i]@ == old_name@,
{
    let mut changed = false;
    let mut i: usize = 0;
    let n = list.len();
    while i < n
        invariant
            n == old(list)@.len(),
            list@.len() == n,
            i <= n,
            forall|j: int| 0 <= j < i ==> #[trigger] list@[j]@ == renamed_entry(old(list)@[j]@, old_name@, new_name@),
            forall|j: int| i <= j < n ==> #[trigger] list@[j] == old(list)@[j],
            changed == exists|j: int| 0 <= j < i && #[trigger] old(list)@[j]@ == old_name@,
        decreases n - i,
    {
        if same_text(list[i].as_str(), old_name) {
            list.set(i, to_owned_text(new_name));
            changed = true;
        }
        i = i + 1;
    }
    changed
}

/// Moves each entry under `old_prefix` to `new_prefix`, in place; says
/// whether any entry changed.
pub fn update_auto_start_presets_prefix(list: &mut Vec<String>, old_prefix: &str, new_prefix: &str) -> (r: bool)
    ensures
        final(list)@.len() == old(list)@.len(),
        forall|i: int|
            0 <= i < old(list)@.len() ==> #[trigger] final(list)@[i]@ == rebased_entry(
                old(list)@[i]@,
                old_prefix@,
                new_prefix@,
            ),
        r == exists|i: int| 0 <= i < old(list)@.len() && has_prefix(#[trigger] old(list)@[i]@, old_prefix@),
{
    let mut changed = false;
    let mut i: usize = 0;
    let n = list.len();
    let plen = old_prefix.unicode_len();
    while i < n
        invariant
            n == old(list)@.len(),
            plen == old_prefix@.len(),
            list@.len() == n,
            i <= n,
            forall|j: int| 0 <= j < i ==> #[trigger] list@[j]@ == rebased_entry(old(list)@[j]@, old_prefix@, new_prefix@),
            forall|j: int| i <= j < n ==> #[trigger] list@[j] == old(list)@[j],
            changed == exists|j: int| 0 <= j < i && has_prefix(#[trigger] old(list)@[j]@, old_prefix@),
        decreases n - i,
    {
        if starts_with_text(list[i].as_str(), old_prefix) {
            let rest = suffix_text(list[i].as_str(), plen);
            let entry = concat_text(new_prefix, rest.as_str());
            list.set(i, entry);
            changed = true;
        }
        i = i + 1;
    }
    changed
}

} // verus!
