//! The order of names by their characters, and sorted lists of names.
//!
//! Names compare character by character, by code point, and a proper prefix
//! comes first: the order of `String` (whose bytes, in UTF-8, order the same
//! way as the code points they encode).
use vstd::prelude::*;
use crate::common::text::chars_of;

verus! {

/// Does `a[i..]` come before `b[i..]`?
pub open spec fn less_from(a: Seq<char>, b: Seq<char>, i: int) -> bool
    decreases a.len() - i,
{
    if i >= a.len() {
        i < b.len()
    } else if i >= b.len() {
        false
    } else if a[i] != b[i] {
        (a[i] as int) < (b[i] as int)
    } else {
        less_from(a, b, i + 1)
    }
}

/// Does the name `a` come before the name `b`?
pub open spec fn text_less(a: Seq<char>, b: Seq<char>) -> bool {
    less_from(a, b, 0)
}

/// Does every name of the list come before the ones after it?
pub open spec fn strictly_sorted(v: Seq<Seq<char>>) -> bool {
    forall|i: int, j: int| 0 <= i < j < v.len() ==> text_less(#[trigger] v[i], #[trigger] v[j])
}

/// The names of a list of strings.
pub open spec fn names_of(v: Seq<String>) -> Seq<Seq<char>> {
    v.map_values(|s: String| s@)
}

proof fn lemma_less_from_irreflexive(a: Seq<char>, i: int)
    requires
        0 <= i,
    ensures
        !less_from(a, a, i),
    decreases a.len() - i,
{
    if i < a.len() {
        lemma_less_from_irreflexive(a, i + 1);
    }
}

proof fn lemma_less_from_transitive(a: Seq<char>, b: Seq<char>, c: Seq<char>, i: int)
    requires
        0 <= i,
        less_from(a, b, i),
        less_from(b, c, i),
    ensures
        less_from(a, c, i),
    decreases a.len() - i,
{
    if i < a.len() && i < b.len() && i < c.len() && a[i] == b[i] && b[i] == c[i] {
        lemma_less_from_transitive(a, b, c, i + 1);
    }
}

proof fn lemma_less_from_total(a: Seq<char>, b: Seq<char>, i: int)
    requires
        0 <= i <= a.len(),
        i <= b.len(),
        !less_from(a, b, i),
        !less_from(b, a, i),
    ensures
        a.len() == b.len(),
        forall|k: int| i <= k < a.len() ==> a[k] == b[k],
    decreases a.len() - i,
{
    if i < a.len() && i < b.len() {
        if a[i] == b[i] {
            lemma_less_from_total(a, b, i + 1);
        } else {
            assert((a[i] as int) != (b[i] as int));
        }
    }
}

/// No name comes before itself.
pub proof fn lemma_text_less_irreflexive(a: Seq<char>)
    ensures
        !text_less(a, a),
{
    lemma_less_from_irreflexive(a, 0);
}

/// A name before a name before a third comes before the third.
pub proof fn lemma_text_less_transitive(a: Seq<char>, b: Seq<char>, c: Seq<char>)
    requires
        text_less(a, b),
        text_less(b, c),
    ensures
        text_less(a, c),
{
    lemma_less_from_transitive(a, b, c, 0);
}

/// Of two different names, one comes before the other.
pub proof fn lemma_text_less_total(a: Seq<char>, b: Seq<char>)
    requires
        a != b,
    ensures
        text_less(a, b) || text_less(b, a),
{
    if !text_less(a, b) && !text_less(b, a) {
        lemma_less_from_total(a, b, 0);
        assert(a =~= b);
    }
}

/// Two sorted lists of the same names are the same list.
pub proof fn lemma_sorted_unique(v: Seq<Seq<char>>, w: Seq<Seq<char>>)
    requires
        strictly_sorted(v),
        strictly_sorted(w),
        v.to_set() == w.to_set(),
    ensures
        v == w,
    decreases v.len(),
{
    if v.len() == 0 {
        if w.len() > 0 {
            assert(w.to_set().contains(w[0]));
        }
        assert(v =~= w);
    } else {
        assert(v.to_set().contains(v[0]));
        assert(w.len() > 0);
        assert(w.to_set().contains(w[0]));
        let jv = choose|j: int| 0 <= j < w.len() && w[j] == v[0];
        let jw = choose|j: int| 0 <= j < v.len() && v[j] == w[0];
        if v[0] != w[0] {
            assert(jv > 0 && jw > 0);
            assert(text_less(w[0], w[jv]));
            assert(text_less(v[0], v[jw]));
            lemma_text_less_transitive(w[0], v[0], w[0]);
            lemma_text_less_irreflexive(w[0]);
        }
        let v1 = v.drop_first();
        let w1 = w.drop_first();
        assert forall|x: Seq<char>| v1.to_set().contains(x) implies w1.to_set().contains(x) by {
            let k = choose|k: int| 0 <= k < v1.len() && v1[k] == x;
            assert(v.to_set().contains(v[k + 1]));
            let m = choose|m: int| 0 <= m < w.len() && w[m] == x;
            if m == 0 {
                assert(text_less(v[0], v[k + 1]));
                lemma_text_less_irreflexive(x);
            }
            assert(w1[m - 1] == x);
        }
        assert forall|x: Seq<char>| w1.to_set().contains(x) implies v1.to_set().contains(x) by {
            let k = choose|k: int| 0 <= k < w1.len() && w1[k] == x;
            assert(w.to_set().contains(w[k + 1]));
            let m = choose|m: int| 0 <= m < v.len() && v[m] == x;
            if m == 0 {
                assert(text_less(w[0], w[k + 1]));
                lemma_text_less_irreflexive(x);
            }
            assert(v1[m - 1] == x);
        }
        assert(v1.to_set() =~= w1.to_set());
        lemma_sorted_unique(v1, w1);
        assert(v =~= seq![v[0]] + v1);
        assert(w =~= seq![w[0]] + w1);
    }
}

/// Does the name `a` come before the name `b`?
pub fn text_before(a: &String, b: &String) -> (r: bool)
    ensures
        r == text_less(a@, b@),
{
    let x = chars_of(a.as_str());
    let y = chars_of(b.as_str());
    let mut i: usize = 0;
    while i < x.len() && i < y.len() && x[i] == y[i]
        invariant
            x@ == a@,
            y@ == b@,
            i <= x@.len(),
            i <= y@.len(),
            less_from(a@, b@, 0) == less_from(a@, b@, i as int),
        decreases x@.len() - i,
    {
        i = i + 1;
    }
    if i >= x.len() {
        i < y.len()
    } else if i >= y.len() {
        false
    } else {
        x[i] < y[i]
    }
}

/// Adds `name` to a sorted list of names, where it belongs, unless it is
/// there already.
pub fn insert_sorted(names: &mut Vec<String>, name: &String)
    requires
        strictly_sorted(names_of(old(names)@)),
    ensures
        strictly_sorted(names_of(final(names)@)),
        names_of(final(names)@).to_set() == names_of(old(names)@).to_set().insert(name@),
{
    let ghost v = names_of(names@);
    let mut i: usize = 0;
    while i < names.len() && text_before(&names[i], name)
        invariant
            v == names_of(names@),
            i <= names@.len(),
            forall|k: int| 0 <= k < i ==> text_less(#[trigger] v[k], name@),
        decreases names@.len() - i,
    {
        i = i + 1;
    }
    if i < names.len() && names[i].eq(name) {
        assert(v.to_set().contains(v[i as int]));
        assert(v.to_set().insert(name@) =~= v.to_set());
        return;
    }
    let ghost pos = i as int;
    proof {
        if pos < v.len() {
            lemma_text_less_total(v[pos], name@);
        }
    }
    names.insert(i, name.clone());
    let ghost w = names_of(names@);
    assert(w =~= v.insert(pos, name@));
    assert forall|a: int, b: int| 0 <= a < b < w.len() implies text_less(#[trigger] w[a], #[trigger] w[b]) by {
        if b < pos {
            assert(w[a] == v[a] && w[b] == v[b]);
        } else if b == pos {
            assert(w[a] == v[a]);
        } else if a == pos {
            assert(w[b] == v[b - 1]);
            if b - 1 > pos {
                assert(text_less(v[pos], v[b - 1]));
                lemma_text_less_transitive(name@, v[pos], v[b - 1]);
            }
        } else if a < pos {
            assert(w[a] == v[a] && w[b] == v[b - 1]);
        } else {
            assert(w[a] == v[a - 1] && w[b] == v[b - 1]);
        }
    }
    assert forall|x: Seq<char>| w.to_set().contains(x) <==> v.to_set().insert(name@).contains(x) by {
        if w.to_set().contains(x) {
            let k = choose|k: int| 0 <= k < w.len() && w[k] == x;
            if k < pos {
                assert(v[k] == x);
            } else if k > pos {
                assert(v[k - 1] == x);
            }
        }
        if v.to_set().contains(x) {
            let k = choose|k: int| 0 <= k < v.len() && v[k] == x;
            if k < pos {
                assert(w[k] == x);
            } else {
                assert(w[k + 1] == x);
            }
        }
        if x == name@ {
            assert(w[pos] == x);
        }
    }
    assert(w.to_set() =~= v.to_set().insert(name@));
}

} // verus!
