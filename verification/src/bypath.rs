//! Entries by path: a vector in which the paths ascend, so that no path
//! occurs twice and the order of the entries is the order of their paths.
use vstd::prelude::*;
use crate::text::to_chars;

verus! {

/// From index `i` on, `a` comes before `b`: at the first place where they
/// differ `a` holds the lesser character, or `a` ends there and `b` does not.
pub open spec fn precedes_from(a: Seq<char>, b: Seq<char>, i: int) -> bool
    decreases a.len() - i,
{
    if i < 0 || i >= b.len() {
        false
    } else if i >= a.len() {
        true
    } else if a[i] != b[i] {
        a[i] < b[i]
    } else {
        precedes_from(a, b, i + 1)
    }
}

/// `a` comes before `b` in the order of their characters.
pub open spec fn precedes(a: Seq<char>, b: Seq<char>) -> bool {
    precedes_from(a, b, 0)
}

/// The paths of the entries ascend. Then no path occurs twice.
pub open spec fn ascending<V>(entries: Seq<(String, V)>) -> bool {
    forall|i: int, j: int|
        0 <= i < j < entries.len() ==> precedes(
            (#[trigger] entries[i]).0@,
            (#[trigger] entries[j]).0@,
        )
}

/// The entries with `entry` among them at the place of its path: in place
/// of the entry of the same path where there is one.
pub open spec fn inserted<V>(entries: Seq<(String, V)>, entry: (String, V)) -> Seq<(String, V)>
    decreases entries.len(),
{
    if entries.len() == 0 {
        seq![entry]
    } else if entries.last().0@ == entry.0@ {
        entries.drop_last().push(entry)
    } else if precedes(entries.last().0@, entry.0@) {
        entries.push(entry)
    } else {
        inserted(entries.drop_last(), entry).push(entries.last())
    }
}

pub proof fn lemma_precedes_not_itself(a: Seq<char>, i: int)
    requires
        0 <= i,
    ensures
        !precedes_from(a, a, i),
    decreases a.len() - i,
{
    if i < a.len() {
        lemma_precedes_not_itself(a, i + 1);
    }
}

pub proof fn lemma_precedes_chain(a: Seq<char>, b: Seq<char>, c: Seq<char>, i: int)
    requires
        0 <= i,
        precedes_from(a, b, i),
        precedes_from(b, c, i),
    ensures
        precedes_from(a, c, i),
    decreases a.len() - i,
{
    if i < a.len() && a[i] == b[i] && b[i] == c[i] {
        lemma_precedes_chain(a, b, c, i + 1);
    }
}

pub proof fn lemma_precedes_either(a: Seq<char>, b: Seq<char>, i: int)
    requires
        0 <= i <= a.len(),
        i <= b.len(),
        forall|k: int| 0 <= k < i ==> a[k] == b[k],
        a != b,
    ensures
        precedes_from(a, b, i) || precedes_from(b, a, i),
    decreases a.len() - i,
{
    if i >= a.len() && i >= b.len() {
        assert(a =~= b);
    } else if i < a.len() && i < b.len() {
        if a[i] == b[i] {
            lemma_precedes_either(a, b, i + 1);
        } else {

        }
    }
}

/// Where the paths ascend, no path occurs twice.
pub proof fn lemma_ascending_distinct<V>(entries: Seq<(String, V)>, i: int, j: int)
    requires
        ascending(entries),
        0 <= i < j < entries.len(),
    ensures
        entries[i].0@ != entries[j].0@,
{
    lemma_precedes_not_itself(entries[i].0@, 0);
}

/// Putting an entry at the place of its path keeps the paths ascending,
/// and adds nothing but that entry.
pub proof fn lemma_inserted_ascending<V>(entries: Seq<(String, V)>, entry: (String, V))
    requires
        ascending(entries),
    ensures
        ascending(inserted(entries, entry)),
        forall|k: int|
            0 <= k < inserted(entries, entry).len() ==> #[trigger] inserted(entries, entry)[k]
                == entry || entries.contains(inserted(entries, entry)[k]),
    decreases entries.len(),
{
    let r = inserted(entries, entry);
    if entries.len() == 0 {
    } else {
        let last = entries.last();
        let n = entries.len() - 1;
        assert(last == entries[n]);
        assert forall|k: int| 0 <= k < n implies entries.contains(
            #[trigger] entries.drop_last()[k],
        ) by {
            assert(entries[k] == entries.drop_last()[k]);
        }
        if last.0@ == entry.0@ {
            assert forall|i: int, j: int| 0 <= i < j < r.len() implies precedes(
                (#[trigger] r[i]).0@,
                (#[trigger] r[j]).0@,
            ) by {
                assert(r[i] == entries[i]);
                if j < n {
                    assert(r[j] == entries[j]);
                } else {
                    assert(precedes(entries[i].0@, entries[n].0@));
                }
            }
        } else if precedes(last.0@, entry.0@) {
            assert forall|i: int, j: int| 0 <= i < j < r.len() implies precedes(
                (#[trigger] r[i]).0@,
                (#[trigger] r[j]).0@,
            ) by {
                assert(r[i] == entries[i]);
                if j < entries.len() {
                    assert(r[j] == entries[j]);
                } else if i < n {
                    assert(precedes(entries[i].0@, entries[n].0@));
                    lemma_precedes_chain(entries[i].0@, last.0@, entry.0@, 0);
                }
            }
            assert forall|k: int| 0 <= k < r.len() implies #[trigger] r[k] == entry
                || entries.contains(r[k]) by {
                if k < entries.len() {
                    assert(r[k] == entries[k]);
                }
            }
        } else {
            let before = inserted(entries.drop_last(), entry);
            assert(ascending(entries.drop_last())) by {
                assert forall|i: int, j: int| 0 <= i < j < n implies precedes(
                    (#[trigger] entries.drop_last()[i]).0@,
                    (#[trigger] entries.drop_last()[j]).0@,
                ) by {
                    assert(entries.drop_last()[i] == entries[i]);
                    assert(entries.drop_last()[j] == entries[j]);
                }
            }
            lemma_inserted_ascending(entries.drop_last(), entry);
            lemma_precedes_either(last.0@, entry.0@, 0);
            assert forall|i: int, j: int| 0 <= i < j < r.len() implies precedes(
                (#[trigger] r[i]).0@,
                (#[trigger] r[j]).0@,
            ) by {
                assert(r[i] == before[i]);
                if j < before.len() {
                    assert(r[j] == before[j]);
                } else {
                    assert(r[j] == last);
                    if before[i] != entry {
                        assert(entries.drop_last().contains(before[i]));
                        let m = choose|m: int|
                            0 <= m < n && entries.drop_last()[m] == before[i];
                        assert(entries[m] == before[i]);
                        assert(precedes(entries[m].0@, entries[n].0@));
                    }
                }
            }
            assert forall|k: int| 0 <= k < r.len() implies #[trigger] r[k] == entry
                || entries.contains(r[k]) by {
                if k < before.len() {
                    assert(r[k] == before[k]);
                    if before[k] != entry {
                        let m = choose|m: int|
                            0 <= m < n && entries.drop_last()[m] == before[k];
                        assert(entries[m] == before[k]);
                    }
                }
            }
        }
    }
}

/// Whether `a` comes before `b` in the order of their characters.
pub fn comes_before(a: &str, b: &str) -> (r: bool)
    ensures
        r == precedes(a@, b@),
{
    let x = to_chars(a);
    let y = to_chars(b);
    let mut i: usize = 0;
    loop
        invariant
            x@ == a@,
            y@ == b@,
            i <= x@.len(),
            i <= y@.len(),
            precedes(a@, b@) == precedes_from(a@, b@, i as int),
        decreases x@.len() - i,
    {
        if i >= y.len() {
            return false;
        }
        if i >= x.len() {
            return true;
        }
        let c: char = x[i];
        let d: char = y[i];
        if c != d {
            return c < d;
        }
        i += 1;
    }
}

/// Puts `value` under `path` among the entries, at the place of its path,
/// and in place of the entry of that path where there is one. Where the
/// paths ascended they still do.
pub fn insert_by_path<V>(entries: &mut Vec<(String, V)>, path: String, value: V)
    ensures
        final(entries)@ == inserted(old(entries)@, (path, value)),
        ascending(old(entries)@) ==> ascending(final(entries)@),
{
    let ghost all = entries@;
    let ghost entry = (path, value);
    let mut i: usize = entries.len();
    let mut same: bool = false;
    proof {
        assert(all.take(i as int) =~= all);
        assert(all.skip(i as int) =~= Seq::<(String, V)>::empty());
        assert(inserted(all, entry) + all.skip(i as int) =~= inserted(all, entry));
        lemma_inserted_ascending_if(all, entry);
    }
    while i > 0
        invariant_except_break
            !same,
        invariant
            all == entries@,
            i <= all.len(),
            entry.0 == path,
            inserted(all, entry) == inserted(all.take(i as int), entry) + all.skip(i as int),
        ensures
            all == entries@,
            i <= all.len(),
            entry.0 == path,
            inserted(all, entry) == inserted(all.take(i as int), entry) + all.skip(i as int),
            same ==> i > 0 && all[i - 1].0@ == path@,
            !same ==> i == 0 || precedes(all[i - 1].0@, path@),
        decreases i,
    {
        let ghost upto = all.take(i as int);
        assert(upto.last() == all[i - 1]);
        if entries[i - 1].0 == path {
            same = true;
            break ;
        }
        if comes_before(entries[i - 1].0.as_str(), path.as_str()) {
            break ;
        }
        proof {
            assert(upto.drop_last() =~= all.take(i - 1));
            assert(inserted(upto, entry) == inserted(all.take(i - 1), entry).push(all[i - 1]));
            assert(inserted(all.take(i - 1), entry).push(all[i - 1]) + all.skip(i as int)
                =~= inserted(all.take(i - 1), entry) + all.skip(i - 1));
        }
        i -= 1;
    }
    if same {
        proof {
            let upto = all.take(i as int);
            assert(upto.last() == all[i - 1]);
            assert(upto.drop_last() =~= all.take(i - 1));
            assert(all.take(i - 1).push(entry) + all.skip(i as int) =~= all.update(
                i - 1,
                entry,
            ));
        }
        entries[i - 1] = (path, value);
    } else {
        proof {
            let upto = all.take(i as int);
            if i > 0 {
                assert(upto.last() == all[i - 1]);
                lemma_precedes_not_itself(path@, 0);
            }
            assert(inserted(upto, entry) == upto.push(entry)) by {
                if i == 0 {
                    assert(upto =~= Seq::<(String, V)>::empty());
                    assert(upto.push(entry) =~= seq![entry]);
                }
            }
            assert(upto.push(entry) + all.skip(i as int) =~= all.insert(i as int, entry));
        }
        entries.insert(i, (path, value));
    }
}

proof fn lemma_inserted_ascending_if<V>(entries: Seq<(String, V)>, entry: (String, V))
    ensures
        ascending(entries) ==> ascending(inserted(entries, entry)),
{
    if ascending(entries) {
        lemma_inserted_ascending(entries, entry);
    }
}

} // verus!
