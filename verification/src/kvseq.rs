//! The mathematical model behind the registry's two tables: a sequence of
//! key–value entries with pairwise-distinct keys, read as a finite map from
//! identifier values to entries.

use crate::ids::TaskId;
use vstd::prelude::*;

verus! {

/// No two entries carry the same identifier.
pub(crate) open spec fn distinct_keys<T>(s: Seq<(TaskId, T)>) -> bool {
    forall|i: int, j: int| 0 <= i < j < s.len() ==> s[i].0@ != s[j].0@
}

/// Some entry carries the identifier value `k`.
pub(crate) open spec fn has_key<T>(s: Seq<(TaskId, T)>, k: int) -> bool {
    exists|i: int| 0 <= i < s.len() && s[i].0@ == k
}

/// The entries read as a map from identifier value to stored value; a later
/// entry wins, which cannot matter once keys are distinct.
pub(crate) open spec fn entry_map<T>(s: Seq<(TaskId, T)>) -> Map<int, T>
    decreases s.len(),
{
    if s.len() == 0 {
        Map::empty()
    } else {
        entry_map(s.drop_last()).insert(s.last().0@, s.last().1)
    }
}

/// The map contains exactly the keys that some entry carries.
pub(crate) proof fn lemma_entry_map_contains<T>(s: Seq<(TaskId, T)>, k: int)
    ensures
        entry_map(s).contains_key(k) <==> has_key(s, k),
    decreases s.len(),
{
    if s.len() > 0 {
        lemma_entry_map_contains(s.drop_last(), k);
        if s.last().0@ == k {
            assert(s[s.len() - 1].0@ == k);
        } else if has_key(s.drop_last(), k) {
            let i = choose|i: int| 0 <= i < s.drop_last().len() && s.drop_last()[i].0@ == k;
            assert(s[i].0@ == k);
        } else if has_key(s, k) {
            let i = choose|i: int| 0 <= i < s.len() && s[i].0@ == k;
            assert(s.drop_last()[i].0@ == k);
        }
    }
}

/// The map's domain is finite and no larger than the number of entries; with
/// distinct keys it is exactly that large.
pub(crate) proof fn lemma_entry_map_len<T>(s: Seq<(TaskId, T)>)
    ensures
        entry_map(s).dom().finite(),
        entry_map(s).dom().len() <= s.len(),
        distinct_keys(s) ==> entry_map(s).dom().len() == s.len(),
    decreases s.len(),
{
    if s.len() > 0 {
        lemma_entry_map_len(s.drop_last());
        if distinct_keys(s) {
            assert(distinct_keys(s.drop_last()));
            lemma_entry_map_contains(s.drop_last(), s.last().0@);
            assert(!has_key(s.drop_last(), s.last().0@)) by {
                if has_key(s.drop_last(), s.last().0@) {
                    let i = choose|i: int|
                        0 <= i < s.drop_last().len() && s.drop_last()[i].0@ == s.last().0@;
                    assert(s[i].0@ == s[s.len() - 1].0@);
                }
            }
        }
    }
}

/// The entry at a position gives the map's value at its key.
pub(crate) proof fn lemma_entry_map_index<T>(s: Seq<(TaskId, T)>, i: int)
    requires
        distinct_keys(s),
        0 <= i < s.len(),
    ensures
        entry_map(s).contains_key(s[i].0@),
        entry_map(s)[s[i].0@] == s[i].1,
    decreases s.len(),
{
    if i == s.len() - 1 {
    } else {
        assert(distinct_keys(s.drop_last()));
        assert(s.drop_last()[i] == s[i]);
        lemma_entry_map_index(s.drop_last(), i);
        assert(s[i].0@ != s.last().0@);
    }
}

/// Appending an entry with an unused key inserts it into the map and keeps
/// the keys distinct.
pub(crate) proof fn lemma_entry_map_push<T>(s: Seq<(TaskId, T)>, id: TaskId, v: T)
    requires
        distinct_keys(s),
        !has_key(s, id@),
    ensures
        distinct_keys(s.push((id, v))),
        entry_map(s.push((id, v))) == entry_map(s).insert(id@, v),
{
    let t = s.push((id, v));
    assert(t.drop_last() =~= s);
    assert(t.last() == (id, v));
    assert forall|i: int, j: int| 0 <= i < j < t.len() implies t[i].0@ != t[j].0@ by {
        if j == t.len() - 1 {
            assert(s[i].0@ == t[i].0@);
            assert(!(s[i].0@ == id@)) by {
                if s[i].0@ == id@ {
                    assert(has_key(s, id@));
                }
            }
        }
    }
}

/// Removing the entry at a position removes its key from the map and keeps
/// the keys distinct.
pub(crate) proof fn lemma_entry_map_remove<T>(s: Seq<(TaskId, T)>, i: int)
    requires
        distinct_keys(s),
        0 <= i < s.len(),
    ensures
        distinct_keys(s.remove(i)),
        entry_map(s.remove(i)) == entry_map(s).remove(s[i].0@),
    decreases s.len(),
{
    let r = s.remove(i);
    assert forall|a: int, b: int| 0 <= a < b < r.len() implies r[a].0@ != r[b].0@ by {
        let a0: int = if a < i { a } else { a + 1 };
        let b0: int = if b < i { b } else { b + 1 };
        assert(r[a] == s[a0] && r[b] == s[b0]);
    }
    if i == s.len() - 1 {
        assert(r =~= s.drop_last());
        lemma_entry_map_contains(s.drop_last(), s[i].0@);
        assert(!has_key(s.drop_last(), s[i].0@)) by {
            if has_key(s.drop_last(), s[i].0@) {
                let j = choose|j: int|
                    0 <= j < s.drop_last().len() && s.drop_last()[j].0@ == s[i].0@;
                assert(s[j].0@ == s[i].0@);
            }
        }
        assert(entry_map(s.drop_last()).insert(s.last().0@, s.last().1).remove(s[i].0@)
            =~= entry_map(s.drop_last()));
    } else {
        assert(distinct_keys(s.drop_last()));
        assert(s.drop_last()[i] == s[i]);
        lemma_entry_map_remove(s.drop_last(), i);
        assert(r.drop_last() =~= s.drop_last().remove(i));
        assert(r.last() == s.last());
        assert(entry_map(r) == entry_map(s.drop_last().remove(i)).insert(s.last().0@, s.last().1));
        assert(s[i].0@ != s.last().0@);
        assert(entry_map(s.drop_last()).remove(s[i].0@).insert(s.last().0@, s.last().1)
            =~= entry_map(s.drop_last()).insert(s.last().0@, s.last().1).remove(s[i].0@));
    }
}

/// Replacing the value at a position, keeping its key, updates the map at
/// that key and keeps the keys distinct.
pub(crate) proof fn lemma_entry_map_update<T>(s: Seq<(TaskId, T)>, i: int, v: T)
    requires
        distinct_keys(s),
        0 <= i < s.len(),
    ensures
        distinct_keys(s.update(i, (s[i].0, v))),
        entry_map(s.update(i, (s[i].0, v))) == entry_map(s).insert(s[i].0@, v),
    decreases s.len(),
{
    let u = s.update(i, (s[i].0, v));
    assert forall|a: int, b: int| 0 <= a < b < u.len() implies u[a].0@ != u[b].0@ by {
        assert(u[a].0 == s[a].0 && u[b].0 == s[b].0);
    }
    if i == s.len() - 1 {
        assert(u.drop_last() =~= s.drop_last());
        assert(u.last() == (s[i].0, v));
        assert(entry_map(s.drop_last()).insert(s[i].0@, v)
            =~= entry_map(s.drop_last()).insert(s.last().0@, s.last().1).insert(s[i].0@, v));
    } else {
        assert(distinct_keys(s.drop_last()));
        assert(s.drop_last()[i] == s[i]);
        lemma_entry_map_update(s.drop_last(), i, v);
        assert(u.drop_last() =~= s.drop_last().update(i, (s[i].0, v)));
        assert(u.last() == s.last());
        assert(s[i].0@ != s.last().0@);
        assert(entry_map(s.drop_last()).insert(s[i].0@, v).insert(s.last().0@, s.last().1)
            =~= entry_map(s.drop_last()).insert(s.last().0@, s.last().1).insert(s[i].0@, v));
    }
}

} // verus!
