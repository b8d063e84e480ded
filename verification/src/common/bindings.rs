//! Lists of name/value bindings where a later binding of a name hides the
//! earlier ones, and the maps they stand for.
use vstd::prelude::*;

verus! {

/// The map that a list of bindings stands for: a later binding of a name
/// hides the earlier ones.
pub open spec fn bindings_map<V>(s: Seq<(String, V)>) -> Map<Seq<char>, V>
    decreases s.len(),
{
    if s.len() == 0 {
        Map::empty()
    } else {
        bindings_map(s.drop_last()).insert(s.last().0@, s.last().1)
    }
}

/// The last binding of `k` at an index below `n`, if there is one.
pub open spec fn last_binding<V>(s: Seq<(String, V)>, k: Seq<char>, n: int) -> Option<int>
    decreases n,
{
    if n <= 0 {
        None
    } else if s[n - 1].0@ == k {
        Some(n - 1)
    } else {
        last_binding(s, k, n - 1)
    }
}

/// The map holds a name exactly where some binding names it, and gives
/// the value of its last binding.
pub proof fn lemma_bindings_map_lookup<V>(s: Seq<(String, V)>, k: Seq<char>)
    ensures
        match last_binding(s, k, s.len() as int) {
            Some(i) => 0 <= i < s.len() && bindings_map(s).dom().contains(k) && bindings_map(s)[k]
                == s[i].1 && s[i].0@ == k,
            None => !bindings_map(s).dom().contains(k),
        },
    decreases s.len(),
{
    if s.len() > 0 {
        let t = s.drop_last();
        lemma_bindings_map_lookup(t, k);
        if s.last().0@ != k {
            lemma_last_binding_prefix(s, k, s.len() - 1);
        }
    }
}

/// Below the length of a prefix, the last binding is the same in the prefix.
pub proof fn lemma_last_binding_prefix<V>(s: Seq<(String, V)>, k: Seq<char>, n: int)
    requires
        0 <= n < s.len(),
    ensures
        last_binding(s, k, n) == last_binding(s.drop_last(), k, n),
    decreases n,
{
    if n > 0 {
        lemma_last_binding_prefix(s, k, n - 1);
    }
}

/// A last binding found below `n` is a binding of the name below `n`, and
/// none after it below `n` binds the name.
pub proof fn lemma_last_binding_found<V>(s: Seq<(String, V)>, k: Seq<char>, n: int)
    requires
        n <= s.len(),
    ensures
        last_binding(s, k, n) matches Some(j) ==> 0 <= j < n && s[j].0@ == k
            && forall|m: int| j < m < n ==> s[m].0@ != k,
        last_binding(s, k, n) is None ==> forall|m: int| 0 <= m < n ==> s[m].0@ != k,
    decreases n,
{
    if n > 0 {
        lemma_last_binding_found(s, k, n - 1);
    }
}

/// Updating the last binding of a name changes the map as an insert does.
pub proof fn lemma_bindings_map_update<V>(s: Seq<(String, V)>, i: int, name: String, v: V)
    requires
        0 <= i < s.len(),
        last_binding(s, name@, s.len() as int) == Some(i),
    ensures
        bindings_map(s.update(i, (name, v))) == bindings_map(s).insert(name@, v),
    decreases s.len(),
{
    let t = s.update(i, (name, v));
    lemma_last_binding_found(s, name@, s.len() as int);
    if i == s.len() - 1 {
        assert(t.drop_last() =~= s.drop_last());
        assert(bindings_map(t) =~= bindings_map(s).insert(name@, v));
    } else {
        assert(s.last().0@ != name@);
        lemma_last_binding_prefix(s, name@, s.len() - 1);
        assert(t.drop_last() =~= s.drop_last().update(i, (name, v)));
        lemma_bindings_map_update(s.drop_last(), i, name, v);
        assert(bindings_map(t) =~= bindings_map(s).insert(name@, v));
    }
}

} // verus!
