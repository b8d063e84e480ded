//! Finite sets of variable names and of definitions, as the dataflow
//! analyses use them.
use vstd::prelude::*;
use vstd::std_specs::cmp::PartialEqSpecImpl;

verus! {

/// The set of the texts of a list of strings.
pub open spec fn text_set(s: Seq<String>) -> Set<Seq<char>> {
    s.map_values(|x: String| x@).to_set()
}

proof fn lemma_text_set_push(s: Seq<String>, x: String)
    ensures
        text_set(s.push(x)) == text_set(s).insert(x@),
{
    assert(s.push(x).map_values(|y: String| y@) =~= s.map_values(|y: String| y@).push(x@));
    s.map_values(|y: String| y@).lemma_push_to_set_commute(x@);
}

proof fn lemma_text_set_contains(s: Seq<String>, t: Seq<char>)
    ensures
        text_set(s).contains(t) <==> exists|i: int| 0 <= i < s.len() && (#[trigger] s[i])@ == t,
{
    let m = s.map_values(|y: String| y@);
    if text_set(s).contains(t) {
        assert(m.contains(t));
        let i = choose|i: int| 0 <= i < m.len() && m[i] == t;
        assert(s[i]@ == t);
    }
    if exists|i: int| 0 <= i < s.len() && (#[trigger] s[i])@ == t {
        let i = choose|i: int| 0 <= i < s.len() && (#[trigger] s[i])@ == t;
        assert(m[i] == t);
    }
}

proof fn lemma_text_set_empty()
    ensures
        text_set(Seq::<String>::empty()) == Set::<Seq<char>>::empty(),
{
    assert(Seq::<String>::empty().map_values(|y: String| y@) =~= Seq::<Seq<char>>::empty());
    assert(text_set(Seq::<String>::empty()) =~= Set::<Seq<char>>::empty());
}

/// A finite set of variable names.
#[derive(Debug)]
pub struct NameSet {
    items: Vec<String>,
}

impl View for NameSet {
    type V = Set<Seq<char>>;

    closed spec fn view(&self) -> Set<Seq<char>> {
        text_set(self.items@)
    }
}

impl NameSet {
    /// The set is finite.
    pub proof fn lemma_finite(&self)
        ensures
            self@.finite(),
    {
        vstd::seq_lib::seq_to_set_is_finite(self.items@.map_values(|y: String| y@));
    }

    /// An empty set.
    pub fn new() -> (r: NameSet)
        ensures
            r@ == Set::<Seq<char>>::empty(),
    {
        let r = NameSet { items: Vec::new() };
        proof {
            assert(r.items@ =~= Seq::<String>::empty());
            lemma_text_set_empty();
        }
        r
    }

    /// Is the name in the set?
    pub fn contains(&self, name: &String) -> (r: bool)
        ensures
            r == self@.contains(name@),
    {
        proof {
            lemma_text_set_contains(self.items@, name@);
        }
        let mut i: usize = 0;
        while i < self.items.len()
            invariant
                i <= self.items@.len(),
                forall|j: int| 0 <= j < i ==> (#[trigger] self.items@[j])@ != name@,
            decreases self.items@.len() - i,
        {
            if self.items[i].eq(name) {
                proof {
                    lemma_text_set_contains(self.items@, name@);
                    assert(self.items@[i as int]@ == name@);
                }
                return true;
            }
            i = i + 1;
        }
        false
    }

    /// Adds a name.
    pub fn insert(&mut self, name: String)
        ensures
            final(self)@ == old(self)@.insert(name@),
    {
        if !self.contains(&name) {
            proof {
                lemma_text_set_push(self.items@, name);
            }
            self.items.push(name);
        } else {
            assert(self@.insert(name@) =~= self@);
        }
    }

    /// Removes a name.
    pub fn remove(&mut self, name: &String)
        ensures
            final(self)@ == old(self)@.remove(name@),
    {
        let mut kept: Vec<String> = Vec::new();
        let mut i: usize = 0;
        proof {
            assert(kept@ =~= Seq::<String>::empty());
            lemma_text_set_empty();
        }
        while i < self.items.len()
            invariant
                i <= self.items@.len(),
                text_set(kept@) == text_set(self.items@.subrange(0, i as int)).remove(name@),
            decreases self.items@.len() - i,
        {
            proof {
                assert(self.items@.subrange(0, i + 1) =~= self.items@.subrange(0, i as int).push(self.items@[i as int]));
                lemma_text_set_push(self.items@.subrange(0, i as int), self.items@[i as int]);
            }
            if !self.items[i].eq(name) {
                proof {
                    lemma_text_set_push(kept@, self.items@[i as int]);
                }
                kept.push(self.items[i].clone());
                assert(text_set(kept@) =~= text_set(self.items@.subrange(0, i + 1)).remove(name@));
            } else {
                assert(text_set(kept@) =~= text_set(self.items@.subrange(0, i + 1)).remove(name@));
            }
            i = i + 1;
        }
        assert(self.items@.subrange(0, i as int) =~= self.items@);
        self.items = kept;
    }

    /// Adds every name of `other`.
    pub fn union_with(&mut self, other: &NameSet)
        ensures
            final(self)@ == old(self)@.union(other@),
    {
        let mut i: usize = 0;
        proof {
            assert(other.items@.subrange(0, 0) =~= Seq::<String>::empty());
            lemma_text_set_empty();
            assert(old(self)@.union(Set::empty()) =~= old(self)@);
        }
        while i < other.items.len()
            invariant
                i <= other.items@.len(),
                self@ == old(self)@.union(text_set(other.items@.subrange(0, i as int))),
            decreases other.items@.len() - i,
        {
            proof {
                assert(other.items@.subrange(0, i + 1) =~= other.items@.subrange(0, i as int).push(other.items@[i as int]));
                lemma_text_set_push(other.items@.subrange(0, i as int), other.items@[i as int]);
            }
            self.insert(other.items[i].clone());
            i = i + 1;
            assert(self@ =~= old(self)@.union(text_set(other.items@.subrange(0, i as int))));
        }
        assert(other.items@.subrange(0, i as int) =~= other.items@);
    }

    /// The names in both sets.
    pub fn intersection(&self, other: &NameSet) -> (r: NameSet)
        ensures
            r@ == self@.intersect(other@),
    {
        let mut r = NameSet::new();
        let mut i: usize = 0;
        proof {
            assert(self.items@.subrange(0, 0) =~= Seq::<String>::empty());
            lemma_text_set_empty();
            assert(r@ =~= Set::<Seq<char>>::empty().intersect(other@));
        }
        while i < self.items.len()
            invariant
                i <= self.items@.len(),
                r@ == text_set(self.items@.subrange(0, i as int)).intersect(other@),
            decreases self.items@.len() - i,
        {
            proof {
                assert(self.items@.subrange(0, i + 1) =~= self.items@.subrange(0, i as int).push(self.items@[i as int]));
                lemma_text_set_push(self.items@.subrange(0, i as int), self.items@[i as int]);
            }
            if other.contains(&self.items[i]) {
                r.insert(self.items[i].clone());
            }
            i = i + 1;
            assert(r@ =~= text_set(self.items@.subrange(0, i as int)).intersect(other@));
        }
        assert(self.items@.subrange(0, i as int) =~= self.items@);
        r
    }

    /// Is every name of this set in `other`?
    pub fn is_subset_of(&self, other: &NameSet) -> (r: bool)
        ensures
            r == self@.subset_of(other@),
    {
        let mut i: usize = 0;
        while i < self.items.len()
            invariant
                i <= self.items@.len(),
                forall|j: int| 0 <= j < i ==> other@.contains((#[trigger] self.items@[j])@),
            decreases self.items@.len() - i,
        {
            if !other.contains(&self.items[i]) {
                proof {
                    assert(self@.contains(self.items@[i as int]@)) by {
                        lemma_text_set_contains(self.items@, self.items@[i as int]@);
                    }
                }
                return false;
            }
            i = i + 1;
        }
        assert forall|t: Seq<char>| self@.contains(t) implies other@.contains(t) by {
            lemma_text_set_contains(self.items@, t);
        }
        true
    }

    /// Do the two sets hold the same names?
    pub fn same(&self, other: &NameSet) -> (r: bool)
        ensures
            r == (self@ == other@),
    {
        let a = self.is_subset_of(other);
        let b = other.is_subset_of(self);
        proof {
            if a && b {
                assert(self@ =~= other@);
            }
        }
        a && b
    }

    /// A copy of the set.
    pub fn copy(&self) -> (r: NameSet)
        ensures
            r@ == self@,
    {
        NameSet { items: self.items.clone() }
    }

    /// The names of the set, each once.
    pub fn names(&self) -> (r: Vec<String>)
        ensures
            text_set(r@) == self@,
            forall|i: int, j: int| 0 <= i < j < r@.len() ==> (#[trigger] r@[i])@ != (#[trigger] r@[j])@,
    {
        let mut acc = NameSet { items: Vec::new() };
        proof {
            lemma_text_set_empty();
            assert(self.items@.subrange(0, 0) =~= Seq::<String>::empty());
        }
        let mut i: usize = 0;
        while i < self.items.len()
            invariant
                i <= self.items@.len(),
                acc@ == text_set(self.items@.subrange(0, i as int)),
                forall|a: int, b: int| 0 <= a < b < acc.items@.len() ==> (#[trigger] acc.items@[a])@ != (#[trigger] acc.items@[b])@,
            decreases self.items@.len() - i,
        {
            let name = self.items[i].clone();
            proof {
                assert(self.items@.subrange(0, i + 1) =~= self.items@.subrange(0, i as int).push(self.items@[i as int]));
                lemma_text_set_push(self.items@.subrange(0, i as int), self.items@[i as int]);
            }
            if !acc.contains(&name) {
                proof {
                    lemma_text_set_push(acc.items@, name);
                    lemma_text_set_contains(acc.items@, name@);
                }
                acc.items.push(name);
            } else {
                assert(acc@.insert(name@) =~= acc@);
            }
            i = i + 1;
        }
        assert(self.items@.subrange(0, self.items@.len() as int) =~= self.items@);
        acc.items
    }
}

/// Where a definition of a variable is: the program's input, or an
/// assignment node.
#[derive(Debug, Clone, Copy, PartialEq, Eq, Hash, Structural)]
pub enum DefinitionPlace {
    Input,
    Node(usize),
}

/// A definition of a variable.
#[derive(Debug)]
pub struct Definition {
    pub variable: String,
    pub place: DefinitionPlace,
}

impl View for Definition {
    type V = (Seq<char>, DefinitionPlace);

    open spec fn view(&self) -> (Seq<char>, DefinitionPlace) {
        (self.variable@, self.place)
    }
}

impl Definition {
    /// A copy of the definition.
    pub fn copy(&self) -> (r: Definition)
        ensures
            r == *self,
    {
        Definition { variable: self.variable.clone(), place: self.place }
    }

    /// Do the two definitions define the same variable at the same place?
    pub fn same(&self, other: &Definition) -> (r: bool)
        ensures
            r == (self@ == other@),
    {
        self.variable.eq(&other.variable) && self.place == other.place
    }
}

/// The set of the views of a list of definitions.
pub open spec fn def_set(s: Seq<Definition>) -> Set<(Seq<char>, DefinitionPlace)> {
    s.map_values(|x: Definition| x@).to_set()
}

proof fn lemma_def_set_push(s: Seq<Definition>, x: Definition)
    ensures
        def_set(s.push(x)) == def_set(s).insert(x@),
{
    assert(s.push(x).map_values(|y: Definition| y@) =~= s.map_values(|y: Definition| y@).push(x@));
    s.map_values(|y: Definition| y@).lemma_push_to_set_commute(x@);
}

pub proof fn lemma_def_set_contains(s: Seq<Definition>, t: (Seq<char>, DefinitionPlace))
    ensures
        def_set(s).contains(t) <==> exists|i: int| 0 <= i < s.len() && (#[trigger] s[i])@ == t,
{
    let m = s.map_values(|y: Definition| y@);
    if def_set(s).contains(t) {
        assert(m.contains(t));
        let i = choose|i: int| 0 <= i < m.len() && m[i] == t;
        assert(s[i]@ == t);
    }
    if exists|i: int| 0 <= i < s.len() && (#[trigger] s[i])@ == t {
        let i = choose|i: int| 0 <= i < s.len() && (#[trigger] s[i])@ == t;
        assert(m[i] == t);
    }
}

proof fn lemma_def_set_empty()
    ensures
        def_set(Seq::<Definition>::empty()) == Set::<(Seq<char>, DefinitionPlace)>::empty(),
{
    assert(Seq::<Definition>::empty().map_values(|y: Definition| y@) =~= Seq::<(Seq<char>, DefinitionPlace)>::empty());
    assert(def_set(Seq::<Definition>::empty()) =~= Set::<(Seq<char>, DefinitionPlace)>::empty());
}

/// A finite set of definitions.
#[derive(Debug)]
pub struct DefinitionSet {
    items: Vec<Definition>,
}

impl View for DefinitionSet {
    type V = Set<(Seq<char>, DefinitionPlace)>;

    closed spec fn view(&self) -> Set<(Seq<char>, DefinitionPlace)> {
        def_set(self.items@)
    }
}

impl DefinitionSet {
    /// The set is finite.
    pub proof fn lemma_finite(&self)
        ensures
            self@.finite(),
    {
        vstd::seq_lib::seq_to_set_is_finite(self.items@.map_values(|y: Definition| y@));
    }

    /// An empty set.
    pub fn new() -> (r: DefinitionSet)
        ensures
            r@ == Set::<(Seq<char>, DefinitionPlace)>::empty(),
    {
        let r = DefinitionSet { items: Vec::new() };
        proof {
            assert(r.items@ =~= Seq::<Definition>::empty());
            lemma_def_set_empty();
        }
        r
    }

    /// Is the definition in the set?
    pub fn contains(&self, name: &Definition) -> (r: bool)
        ensures
            r == self@.contains(name@),
    {
        proof {
            lemma_def_set_contains(self.items@, name@);
        }
        let mut i: usize = 0;
        while i < self.items.len()
            invariant
                i <= self.items@.len(),
                forall|j: int| 0 <= j < i ==> (#[trigger] self.items@[j])@ != name@,
            decreases self.items@.len() - i,
        {
            if self.items[i].same(name) {
                proof {
                    lemma_def_set_contains(self.items@, name@);
                    assert(self.items@[i as int]@ == name@);
                }
                return true;
            }
            i = i + 1;
        }
        false
    }

    /// Adds a definition.
    pub fn insert(&mut self, name: Definition)
        ensures
            final(self)@ == old(self)@.insert(name@),
    {
        if !self.contains(&name) {
            proof {
                lemma_def_set_push(self.items@, name);
            }
            self.items.push(name);
        } else {
            assert(self@.insert(name@) =~= self@);
        }
    }

    /// Removes a definition.
    pub fn remove(&mut self, name: &Definition)
        ensures
            final(self)@ == old(self)@.remove(name@),
    {
        let mut kept: Vec<Definition> = Vec::new();
        let mut i: usize = 0;
        proof {
            assert(kept@ =~= Seq::<Definition>::empty());
            lemma_def_set_empty();
        }
        while i < self.items.len()
            invariant
                i <= self.items@.len(),
                def_set(kept@) == def_set(self.items@.subrange(0, i as int)).remove(name@),
            decreases self.items@.len() - i,
        {
            proof {
                assert(self.items@.subrange(0, i + 1) =~= self.items@.subrange(0, i as int).push(self.items@[i as int]));
                lemma_def_set_push(self.items@.subrange(0, i as int), self.items@[i as int]);
            }
            if !self.items[i].same(name) {
                proof {
                    lemma_def_set_push(kept@, self.items@[i as int]);
                }
                kept.push(self.items[i].copy());
                assert(def_set(kept@) =~= def_set(self.items@.subrange(0, i + 1)).remove(name@));
            } else {
                assert(def_set(kept@) =~= def_set(self.items@.subrange(0, i + 1)).remove(name@));
            }
            i = i + 1;
        }
        assert(self.items@.subrange(0, i as int) =~= self.items@);
        self.items = kept;
    }

    /// The definitions of the set that are not of the variable `name`.
    pub fn without_variable(&self, name: &String) -> (r: DefinitionSet)
        ensures
            r@ == self@.filter(|d: (Seq<char>, DefinitionPlace)| d.0 != name@),
    {
        let mut kept: Vec<Definition> = Vec::new();
        let mut i: usize = 0;
        proof {
            assert(kept@ =~= Seq::<Definition>::empty());
            lemma_def_set_empty();
            assert(def_set(self.items@.subrange(0, 0)) =~= Set::empty());
        }
        while i < self.items.len()
            invariant
                i <= self.items@.len(),
                def_set(kept@) == def_set(self.items@.subrange(0, i as int)).filter(
                    |d: (Seq<char>, DefinitionPlace)| d.0 != name@,
                ),
            decreases self.items@.len() - i,
        {
            proof {
                assert(self.items@.subrange(0, i + 1) =~= self.items@.subrange(0, i as int).push(self.items@[i as int]));
                lemma_def_set_push(self.items@.subrange(0, i as int), self.items@[i as int]);
            }
            if !self.items[i].variable.eq(name) {
                let d = self.items[i].copy();
                proof {
                    lemma_def_set_push(kept@, d);
                }
                kept.push(d);
            }
            i = i + 1;
            assert(def_set(kept@) =~= def_set(self.items@.subrange(0, i as int)).filter(
                |d: (Seq<char>, DefinitionPlace)| d.0 != name@,
            ));
        }
        assert(self.items@.subrange(0, i as int) =~= self.items@);
        DefinitionSet { items: kept }
    }

    /// Adds every definition of `other`.
    pub fn union_with(&mut self, other: &DefinitionSet)
        ensures
            final(self)@ == old(self)@.union(other@),
    {
        let mut i: usize = 0;
        proof {
            assert(other.items@.subrange(0, 0) =~= Seq::<Definition>::empty());
            lemma_def_set_empty();
            assert(old(self)@.union(Set::empty()) =~= old(self)@);
        }
        while i < other.items.len()
            invariant
                i <= other.items@.len(),
                self@ == old(self)@.union(def_set(other.items@.subrange(0, i as int))),
            decreases other.items@.len() - i,
        {
            proof {
                assert(other.items@.subrange(0, i + 1) =~= other.items@.subrange(0, i as int).push(other.items@[i as int]));
                lemma_def_set_push(other.items@.subrange(0, i as int), other.items@[i as int]);
            }
            self.insert(other.items[i].copy());
            i = i + 1;
            assert(self@ =~= old(self)@.union(def_set(other.items@.subrange(0, i as int))));
        }
        assert(other.items@.subrange(0, i as int) =~= other.items@);
    }

    /// The names in both sets.
    pub fn intersection(&self, other: &DefinitionSet) -> (r: DefinitionSet)
        ensures
            r@ == self@.intersect(other@),
    {
        let mut r = DefinitionSet::new();
        let mut i: usize = 0;
        proof {
            assert(self.items@.subrange(0, 0) =~= Seq::<Definition>::empty());
            lemma_def_set_empty();
            assert(r@ =~= Set::<(Seq<char>, DefinitionPlace)>::empty().intersect(other@));
        }
        while i < self.items.len()
            invariant
                i <= self.items@.len(),
                r@ == def_set(self.items@.subrange(0, i as int)).intersect(other@),
            decreases self.items@.len() - i,
        {
            proof {
                assert(self.items@.subrange(0, i + 1) =~= self.items@.subrange(0, i as int).push(self.items@[i as int]));
                lemma_def_set_push(self.items@.subrange(0, i as int), self.items@[i as int]);
            }
            if other.contains(&self.items[i]) {
                r.insert(self.items[i].copy());
            }
            i = i + 1;
            assert(r@ =~= def_set(self.items@.subrange(0, i as int)).intersect(other@));
        }
        assert(self.items@.subrange(0, i as int) =~= self.items@);
        r
    }

    /// Is every definition of this set in `other`?
    pub fn is_subset_of(&self, other: &DefinitionSet) -> (r: bool)
        ensures
            r == self@.subset_of(other@),
    {
        let mut i: usize = 0;
        while i < self.items.len()
            invariant
                i <= self.items@.len(),
                forall|j: int| 0 <= j < i ==> other@.contains((#[trigger] self.items@[j])@),
            decreases self.items@.len() - i,
        {
            if !other.contains(&self.items[i]) {
                proof {
                    assert(self@.contains(self.items@[i as int]@)) by {
                        lemma_def_set_contains(self.items@, self.items@[i as int]@);
                    }
                }
                return false;
            }
            i = i + 1;
        }
        assert forall|t: (Seq<char>, DefinitionPlace)| self@.contains(t) implies other@.contains(t) by {
            lemma_def_set_contains(self.items@, t);
        }
        true
    }

    /// Do the two sets hold the same definitions?
    pub fn same(&self, other: &DefinitionSet) -> (r: bool)
        ensures
            r == (self@ == other@),
    {
        let a = self.is_subset_of(other);
        let b = other.is_subset_of(self);
        proof {
            if a && b {
                assert(self@ =~= other@);
            }
        }
        a && b
    }

    /// A copy of the set.
    pub fn copy(&self) -> (r: DefinitionSet)
        ensures
            r@ == self@,
    {
        let mut r = DefinitionSet::new();
        r.union_with(self);
        assert(r@ =~= self@);
        r
    }

    /// The definitions of the set, each once.
    pub fn definitions(&self) -> (r: Vec<Definition>)
        ensures
            def_set(r@) == self@,
            forall|i: int, j: int| 0 <= i < j < r@.len() ==> (#[trigger] r@[i])@ != (#[trigger] r@[j])@,
    {
        let mut acc = DefinitionSet { items: Vec::new() };
        proof {
            lemma_def_set_empty();
            assert(self.items@.subrange(0, 0) =~= Seq::<Definition>::empty());
        }
        let mut i: usize = 0;
        while i < self.items.len()
            invariant
                i <= self.items@.len(),
                acc@ == def_set(self.items@.subrange(0, i as int)),
                forall|a: int, b: int| 0 <= a < b < acc.items@.len() ==> (#[trigger] acc.items@[a])@ != (#[trigger] acc.items@[b])@,
            decreases self.items@.len() - i,
        {
            let d = self.items[i].copy();
            proof {
                assert(self.items@.subrange(0, i + 1) =~= self.items@.subrange(0, i as int).push(self.items@[i as int]));
                lemma_def_set_push(self.items@.subrange(0, i as int), self.items@[i as int]);
            }
            if !acc.contains(&d) {
                proof {
                    lemma_def_set_push(acc.items@, d);
                    lemma_def_set_contains(acc.items@, d@);
                }
                acc.items.push(d);
            } else {
                assert(acc@.insert(d@) =~= acc@);
            }
            i = i + 1;
        }
        assert(self.items@.subrange(0, self.items@.len() as int) =~= self.items@);
        acc.items
    }
}

impl Clone for NameSet {
    fn clone(&self) -> (r: NameSet)
        ensures
            r@ == self@,
    {
        self.copy()
    }
}

impl Clone for Definition {
    fn clone(&self) -> (r: Definition)
        ensures
            r == *self,
    {
        self.copy()
    }
}

impl Clone for DefinitionSet {
    fn clone(&self) -> (r: DefinitionSet)
        ensures
            r@ == self@,
    {
        self.copy()
    }
}

impl PartialEq for Definition {
    fn eq(&self, other: &Definition) -> (r: bool) {
        self.same(other)
    }
}

impl PartialEqSpecImpl for Definition {
    open spec fn obeys_eq_spec() -> bool {
        true
    }

    open spec fn eq_spec(&self, other: &Definition) -> bool {
        self@ == other@
    }
}

} // verus!
