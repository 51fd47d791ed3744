use vstd::prelude::*;

verus! {

/// Whether no two entries share a name.
pub open spec fn keys_distinct<V>(s: Seq<(String, V)>) -> bool {
    forall|i: int, j: int|
        0 <= i < s.len() && 0 <= j < s.len() && i != j ==> s[i].0@ != s[j].0@
}

/// Whether an entry has the name.
pub open spec fn has_key<V>(s: Seq<(String, V)>, name: Seq<char>) -> bool {
    exists|i: int| 0 <= i < s.len() && s[i].0@ == name
}

/// The value stored under the name.
pub open spec fn value_of<V>(s: Seq<(String, V)>, name: Seq<char>) -> Option<V> {
    if has_key(s, name) {
        Some(s[choose|i: int| 0 <= i < s.len() && s[i].0@ == name].1)
    } else {
        None
    }
}

pub proof fn lemma_value_at<V>(s: Seq<(String, V)>, i: int)
    requires
        keys_distinct(s),
        0 <= i < s.len(),
    ensures
        has_key(s, s[i].0@),
        value_of(s, s[i].0@) == Some(s[i].1),
{
    let n = s[i].0@;
    assert(has_key(s, n));
    let j = choose|j: int| 0 <= j < s.len() && s[j].0@ == n;
    assert(j == i);
}

/// Whether `s1` agrees with `s0` on every name but `name`.
pub open spec fn same_elsewhere<V>(s0: Seq<(String, V)>, s1: Seq<(String, V)>, name: Seq<char>) -> bool {
    forall|n: Seq<char>| n != name ==> #[trigger] value_of(s1, n) == value_of(s0, n)
}

pub fn position<V>(s: &Vec<(String, V)>, name: &String) -> (r: Option<usize>)
    ensures
        r matches Some(i) ==> i < s@.len() && s@[i as int].0@ == name@,
        r is None ==> !has_key(s@, name@),
{
    let mut i: usize = 0;
    while i < s.len()
        invariant
            i <= s@.len(),
            forall|j: int| 0 <= j < i ==> s@[j].0@ != name@,
        decreases s@.len() - i,
    {
        if s[i].0 == *name {
            return Some(i);
        }
        i = i + 1;
    }
    None
}

/// Whether entry `e` is one of `s0` or carries `v`.
pub open spec fn kept_or_new<V>(s0: Seq<(String, V)>, e: (String, V), v: V) -> bool {
    e.1 == v || exists|j: int| 0 <= j < s0.len() && s0[j] == e
}

/// Stores `v` under the name, in place of what was stored there or at the
/// end, and hands back what was stored before.
pub fn insert_keyed<V>(s: &mut Vec<(String, V)>, name: String, v: V) -> (r: Option<V>)
    requires
        keys_distinct(old(s)@),
    ensures
        keys_distinct(final(s)@),
        r == value_of(old(s)@, name@),
        value_of(final(s)@, name@) == Some(v),
        same_elsewhere(old(s)@, final(s)@, name@),
        forall|i: int| 0 <= i < final(s)@.len() ==> kept_or_new(old(s)@, #[trigger] final(s)@[i], v),
{
    let ghost s0 = s@;
    let ghost nm = name@;
    match position(&*s, &name) {
        Some(i) => {
            proof {
                lemma_value_at(s0, i as int);
            }
            let (_, prev) = s.remove(i);
            s.insert(i, (name, v));
            proof {
                let s1 = s@;
                assert forall|k: int| 0 <= k < s1.len() implies #[trigger] s1[k].0@ == s0[k].0@ by {}
                assert forall|k: int| 0 <= k < s1.len() implies kept_or_new(s0, #[trigger] s1[k], v) by {
                    if k != i {
                        assert(s0[k] == s1[k]);
                    }
                }
                assert(keys_distinct(s1));
                lemma_value_at(s1, i as int);
                assert forall|n: Seq<char>| n != nm implies #[trigger] value_of(s1, n) == value_of(
                    s0,
                    n,
                ) by {
                    if has_key(s0, n) {
                        let j = choose|j: int| 0 <= j < s0.len() && s0[j].0@ == n;
                        lemma_value_at(s0, j);
                        lemma_value_at(s1, j);
                    }
                    if has_key(s1, n) {
                        let j = choose|j: int| 0 <= j < s1.len() && s1[j].0@ == n;
                        assert(s0[j] == s1[j]);
                    }
                }
            }
            Some(prev)
        },
        None => {
            s.push((name, v));
            proof {
                let s1 = s@;
                assert(keys_distinct(s1));
                assert forall|k: int| 0 <= k < s1.len() implies kept_or_new(s0, #[trigger] s1[k], v) by {
                    if k < s0.len() {
                        assert(s0[k] == s1[k]);
                    }
                }
                lemma_value_at(s1, s0.len() as int);
                assert forall|n: Seq<char>| n != nm implies #[trigger] value_of(s1, n) == value_of(
                    s0,
                    n,
                ) by {
                    if has_key(s0, n) {
                        let j = choose|j: int| 0 <= j < s0.len() && s0[j].0@ == n;
                        lemma_value_at(s0, j);
                        lemma_value_at(s1, j);
                    }
                    if has_key(s1, n) {
                        let j = choose|j: int| 0 <= j < s1.len() && s1[j].0@ == n;
                        assert(s0[j] == s1[j]);
                    }
                }
            }
            None
        },
    }
}

} // verus!
