use vstd::prelude::*;

use sorted_list::SortedList;

verus! {

#[verifier::external_type_specification]
#[verifier::external_body]
#[verifier::reject_recursive_types(K)]
#[verifier::reject_recursive_types(V)]
pub struct ExSortedList<K: Ord, V: PartialEq>(SortedList<K, V>);

/// A coordinate key: `(start, end)`, ordered as tuples are, start first.
pub type Key = (u64, u64);

/// What a sorted list of coordinate keys holds, in its order.
pub uninterp spec fn list_entries(l: SortedList<(u64, u64), usize>) -> Seq<((u64, u64), usize)>;

/// Tuple order on keys.
pub open spec fn key_le(a: Key, b: Key) -> bool {
    a.0 < b.0 || (a.0 == b.0 && a.1 <= b.1)
}

/// Keys never decrease along the list.
pub open spec fn keys_sorted(s: Seq<(Key, usize)>) -> bool {
    forall|i: int, j: int| 0 <= i < j < s.len() ==> key_le(#[trigger] s[i].0, #[trigger] s[j].0)
}

/// Inserting `e` at `p` keeps every key before `p` at most `e`'s and every
/// key from `p` on greater.
pub open spec fn insert_position(s: Seq<(Key, usize)>, e: (Key, usize), p: int) -> bool {
    &&& 0 <= p <= s.len()
    &&& forall|j: int| 0 <= j < p ==> key_le(#[trigger] s[j].0, e.0)
    &&& forall|j: int| p <= j < s.len() ==> !key_le(#[trigger] s[j].0, e.0)
}

/// Relies on `SortedList::new`: a list with no entries.
#[verifier::external_body]
pub(crate) fn new_list() -> (r: SortedList<(u64, u64), usize>)
    ensures
        list_entries(r) == Seq::<(Key, usize)>::empty(),
{
    SortedList::new()
}

/// Relies on `SortedList::insert`. On a key it does not hold yet it inserts
/// the entry in key order. Otherwise it binary-searches an entry with an equal
/// key and walks forward over the equal keys from there: it returns `false`,
/// changing nothing, if it meets the same value, else it inserts the entry
/// after the last equal key.
#[verifier::external_body]
pub(crate) fn list_insert(l: &mut SortedList<(u64, u64), usize>, key: (u64, u64), value: usize) -> (r: bool)
    requires
        keys_sorted(list_entries(*old(l))),
    ensures
        keys_sorted(list_entries(*final(l))),
        r ==> exists|p: int|
            insert_position(list_entries(*old(l)), (key, value), p) && list_entries(*final(l))
                == list_entries(*old(l)).insert(p, (key, value)),
        !r ==> list_entries(*final(l)) == list_entries(*old(l)) && list_entries(
            *old(l),
        ).contains((key, value)),
        !list_entries(*old(l)).contains((key, value)) ==> r,
        (exists|i: int| 0 <= i < list_entries(*old(l)).len() && #[trigger] list_entries(*old(l))[i].0 == key)
            && (forall|i: int|
            0 <= i < list_entries(*old(l)).len() && #[trigger] list_entries(*old(l))[i].0 == key
                ==> list_entries(*old(l))[i].1 == value) ==> !r,
{
    l.insert(key, value)
}

/// Relies on `SortedList::iter`: every entry, in the list's order.
#[verifier::external_body]
pub(crate) fn list_to_vec(l: &SortedList<(u64, u64), usize>) -> (r: Vec<((u64, u64), usize)>)
    ensures
        r@ == list_entries(*l),
{
    l.iter().map(|(k, v)| (*k, *v)).collect()
}

} // verus!
