//! MiniFun types and typing environments.
use vstd::prelude::*;
use crate::common::text::push_text;
use crate::common::bindings::{bindings_map, last_binding, lemma_bindings_map_lookup};

verus! {

/// A MiniFun type: `int`, `bool` or a function type `t1 -> t2`.
#[derive(Debug)]
pub enum Type {
    Int,
    Bool,
    Fun(Box<Type>, Box<Type>),
}

/// The text that `{:?}` prints for a type.
pub open spec fn type_text(t: Type) -> Seq<char>
    decreases t,
{
    match t {
        Type::Int => "Int"@,
        Type::Bool => "Bool"@,
        Type::Fun(a, b) => "Fun("@ + type_text(*a) + ", "@ + type_text(*b) + ")"@,
    }
}

impl Type {
    /// A copy of the type.
    pub fn copy(&self) -> (r: Type)
        ensures
            r == *self,
        decreases self,
    {
        match self {
            Type::Int => Type::Int,
            Type::Bool => Type::Bool,
            Type::Fun(a, b) => Type::Fun(Box::new(a.copy()), Box::new(b.copy())),
        }
    }

    /// Are the two types the same?
    pub fn same(&self, other: &Type) -> (r: bool)
        ensures
            r == (*self == *other),
        decreases self,
    {
        match (self, other) {
            (Type::Int, Type::Int) => true,
            (Type::Bool, Type::Bool) => true,
            (Type::Fun(a1, b1), Type::Fun(a2, b2)) => a1.same(a2) && b1.same(b2),
            _ => false,
        }
    }

    /// Appends the `{:?}` text of the type to `s`.
    pub fn push_debug_text(&self, s: &mut String)
        ensures
            final(s)@ == old(s)@ + type_text(*self),
        decreases self,
    {
        match self {
            Type::Int => push_text(s, "Int"),
            Type::Bool => push_text(s, "Bool"),
            Type::Fun(a, b) => {
                push_text(s, "Fun(");
                a.push_debug_text(s);
                push_text(s, ", ");
                b.push_debug_text(s);
                push_text(s, ")");
                assert(final(s)@ =~= old(s)@ + type_text(*self));
            },
        }
    }
}

/// A typing environment: which type each variable has.
pub struct TypeEnv {
    entries: Vec<(String, Type)>,
}

impl View for TypeEnv {
    type V = Map<Seq<char>, Type>;

    closed spec fn view(&self) -> Map<Seq<char>, Type> {
        bindings_map(self.entries@)
    }
}

impl TypeEnv {
    /// An empty typing environment.
    pub fn new() -> (r: TypeEnv)
        ensures
            r@ == Map::<Seq<char>, Type>::empty(),
    {
        let r = TypeEnv { entries: Vec::new() };
        assert(r.entries@.len() == 0);
        r
    }

    /// Gives `name` the type `ty`, hiding any type it had.
    pub fn insert(&mut self, name: String, ty: Type)
        ensures
            final(self)@ == old(self)@.insert(name@, ty),
    {
        self.entries.push((name, ty));
        assert(self.entries@.drop_last() =~= old(self).entries@);
    }

    /// The type of `name`, if it has one.
    pub fn get(&self, name: &String) -> (r: Option<&Type>)
        ensures
            match r {
                Some(t) => self@.dom().contains(name@) && *t == self@[name@],
                None => !self@.dom().contains(name@),
            },
    {
        proof {
            lemma_bindings_map_lookup(self.entries@, name@);
        }
        let mut i = self.entries.len();
        while i > 0
            invariant
                i <= self.entries@.len(),
                last_binding(self.entries@, name@, self.entries@.len() as int)
                    == last_binding(self.entries@, name@, i as int),
            decreases i,
        {
            if self.entries[i - 1].0.eq(name) {
                assert(last_binding(self.entries@, name@, i as int) == Some(i - 1));
                proof {
                    lemma_bindings_map_lookup(self.entries@, name@);
                }
                return Some(&self.entries[i - 1].1);
            }
            i = i - 1;
        }
        None
    }

    /// A copy of the environment.
    pub fn copy(&self) -> (r: TypeEnv)
        ensures
            r@ == self@,
    {
        let mut entries: Vec<(String, Type)> = Vec::new();
        let mut i: usize = 0;
        while i < self.entries.len()
            invariant
                i <= self.entries@.len(),
                entries@ == self.entries@.subrange(0, i as int),
            decreases self.entries@.len() - i,
        {
            let name = self.entries[i].0.clone();
            let ty = self.entries[i].1.copy();
            entries.push((name, ty));
            i = i + 1;
            assert(entries@ =~= self.entries@.subrange(0, i as int));
        }
        assert(entries@ =~= self.entries@);
        TypeEnv { entries }
    }
}

impl Clone for Type {
    fn clone(&self) -> (r: Type)
        ensures
            r == *self,
    {
        self.copy()
    }
}

impl Clone for TypeEnv {
    fn clone(&self) -> (r: TypeEnv)
        ensures
            r@ == self@,
    {
        self.copy()
    }
}

} // verus!
