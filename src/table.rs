use vstd::prelude::*;

verus! {

/// The entries of a table with their keys as character sequences.
pub open spec fn entries_view<V>(s: Seq<(Vec<char>, V)>) -> Seq<(Seq<char>, V)> {
    s.map_values(|e: (Vec<char>, V)| (e.0@, e.1))
}

/// The map that a list of entries stands for; a later entry for a key
/// replaces an earlier one.
pub open spec fn to_map<V>(s: Seq<(Seq<char>, V)>) -> Map<Seq<char>, V>
    decreases s.len(),
{
    if s.len() == 0 {
        Map::empty()
    } else {
        to_map(s.drop_last()).insert(s.last().0, s.last().1)
    }
}

/// No key occurs twice.
pub open spec fn keys_unique<V>(s: Seq<(Seq<char>, V)>) -> bool {
    forall|i: int, j: int| 0 <= i < j < s.len() ==> s[i].0 != s[j].0
}

proof fn lemma_to_map_index<V>(s: Seq<(Seq<char>, V)>, i: int)
    requires
        keys_unique(s),
        0 <= i < s.len(),
    ensures
        to_map(s).contains_key(s[i].0),
        to_map(s)[s[i].0] == s[i].1,
    decreases s.len(),
{
    if i < s.len() - 1 {
        lemma_to_map_index(s.drop_last(), i);
    }
}

proof fn lemma_to_map_absent<V>(s: Seq<(Seq<char>, V)>, k: Seq<char>)
    requires
        forall|i: int| 0 <= i < s.len() ==> s[i].0 != k,
    ensures
        !to_map(s).contains_key(k),
    decreases s.len(),
{
    if s.len() > 0 {
        lemma_to_map_absent(s.drop_last(), k);
    }
}

proof fn lemma_to_map_update<V>(s: Seq<(Seq<char>, V)>, i: int, v: V)
    requires
        keys_unique(s),
        0 <= i < s.len(),
    ensures
        to_map(s.update(i, (s[i].0, v))) == to_map(s).insert(s[i].0, v),
    decreases s.len(),
{
    let t = s.update(i, (s[i].0, v));
    if i == s.len() - 1 {
        assert(t.drop_last() =~= s.drop_last());
        lemma_to_map_absent(s.drop_last(), s[i].0);
        assert(to_map(t) =~= to_map(s).insert(s[i].0, v));
    } else {
        assert(t.drop_last() =~= s.drop_last().update(i, (s[i].0, v)));
        lemma_to_map_update(s.drop_last(), i, v);
        assert(to_map(t) =~= to_map(s).insert(s[i].0, v));
    }
}

/// Two texts hold the same characters.
pub(crate) fn same_text(a: &Vec<char>, b: &Vec<char>) -> (r: bool)
    ensures
        r == (a@ == b@),
{
    if a.len() != b.len() {
        return false;
    }
    let mut i: usize = 0;
    while i < a.len()
        invariant
            a@.len() == b@.len(),
            i <= a@.len(),
            forall|j: int| 0 <= j < i ==> a@[j] == b@[j],
        decreases a@.len() - i,
    {
        if a[i] != b[i] {
            return false;
        }
        i = i + 1;
    }
    assert(a@ =~= b@);
    true
}

fn position<V>(entries: &Vec<(Vec<char>, V)>, key: &Vec<char>) -> (r: Option<usize>)
    ensures
        match r {
            Some(i) => i < entries@.len() && entries@[i as int].0@ == key@,
            None => forall|i: int| 0 <= i < entries@.len() ==> entries@[i].0@ != key@,
        },
{
    let mut i: usize = 0;
    while i < entries.len()
        invariant
            i <= entries@.len(),
            forall|j: int| 0 <= j < i ==> entries@[j].0@ != key@,
        decreases entries@.len() - i,
    {
        if same_text(&entries[i].0, key) {
            return Some(i);
        }
        i = i + 1;
    }
    None
}

/// The value bound to `key`, if any.
pub(crate) fn lookup<V: Copy>(entries: &Vec<(Vec<char>, V)>, key: &Vec<char>) -> (r: Option<V>)
    requires
        keys_unique(entries_view(entries@)),
    ensures
        r is Some <==> to_map(entries_view(entries@)).contains_key(key@),
        r matches Some(v) ==> to_map(entries_view(entries@))[key@] == v,
        r matches Some(v) ==> exists|i: int| 0 <= i < entries@.len() && entries@[i].1 == v,
{
    let ghost s = entries_view(entries@);
    match position(entries, key) {
        Some(i) => {
            proof {
                assert(s[i as int].0 == key@);
                lemma_to_map_index(s, i as int);
            }
            Some(entries[i].1)
        },
        None => {
            proof {
                assert forall|i: int| 0 <= i < s.len() implies s[i].0 != key@ by {
                    assert(s[i].0 == entries@[i].0@);
                }
                lemma_to_map_absent(s, key@);
            }
            None
        },
    }
}

/// Binds `key` to `value`, replacing an earlier binding of the key.
pub(crate) fn bind<V: Copy>(entries: &mut Vec<(Vec<char>, V)>, key: Vec<char>, value: V)
    requires
        keys_unique(entries_view(old(entries)@)),
    ensures
        keys_unique(entries_view(final(entries)@)),
        to_map(entries_view(final(entries)@)) == to_map(entries_view(old(entries)@)).insert(
            key@,
            value,
        ),
        forall|i: int|
            0 <= i < final(entries)@.len() ==> #[trigger] final(entries)@[i].1 == value || exists|
                j: int,
            |
                0 <= j < old(entries)@.len() && old(entries)@[j].1 == final(entries)@[i].1,
{
    let ghost s = entries_view(entries@);
    match position(entries, &key) {
        Some(i) => {
            entries.set(i, (key, value));
            proof {
                assert(entries_view(entries@) =~= s.update(i as int, (s[i as int].0, value)));
                lemma_to_map_update(s, i as int, value);
                assert forall|a: int, b: int|
                    0 <= a < b < entries@.len() implies entries_view(entries@)[a].0
                    != entries_view(entries@)[b].0 by {
                    assert(entries_view(entries@)[a].0 == s[a].0);
                    assert(entries_view(entries@)[b].0 == s[b].0);
                }
                assert forall|m: int| 0 <= m < entries@.len() && m != i implies #[trigger] entries@[m].1
                    == old(entries)@[m].1 by {}
            }
        },
        None => {
            let ghost k = key@;
            entries.push((key, value));
            proof {
                assert(entries_view(entries@) =~= s.push((k, value)));
                assert(entries_view(entries@).drop_last() =~= s);
                assert forall|a: int, b: int|
                    0 <= a < b < entries@.len() implies entries_view(entries@)[a].0
                    != entries_view(entries@)[b].0 by {
                    if b == s.len() {
                        assert(entries_view(entries@)[a].0 == entries@[a].0@);
                    } else {
                        assert(entries_view(entries@)[a].0 == s[a].0);
                        assert(entries_view(entries@)[b].0 == s[b].0);
                    }
                }
                assert forall|m: int| 0 <= m < entries@.len() && m < s.len() implies #[trigger] entries@[m].1
                    == old(entries)@[m].1 by {}
            }
        },
    }
}

} // verus!
