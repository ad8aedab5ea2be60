use vstd::prelude::*;

verus! {

/// A symbolic, unresolved path to an entity, relative to a starting entity.
#[derive(Debug, PartialEq)]
pub enum EntityPath {
    /// The starting entity itself.
    This,
    /// The parent of the starting entity.
    Parent,
    /// The entity registered under this document-global name.
    Named(String),
    /// The first entity named by the second field, searched depth-first in
    /// the subtree at the entity the first field resolves to.
    Search(Box<EntityPath>, String),
}

/// An unresolved reference to a property: an entity path and a property key.
#[derive(Debug, PartialEq)]
pub struct NamedPropRef {
    pub entity_path: EntityPath,
    pub property_key: String,
}

/// A value wrapped with a type tag.
#[derive(Debug, PartialEq)]
pub struct TypedPon {
    pub type_tag: String,
    pub data: Pon,
}

/// An expression value.
#[derive(Debug, PartialEq)]
pub enum Pon {
    Nil,
    Integer(i64),
    /// A non-integral number, kept as its decimal text.
    Number(String),
    String(String),
    Boolean(bool),
    TypedPon(Box<TypedPon>),
    Object(Vec<(String, Pon)>),
    Array(Vec<Pon>),
    /// A reference to another property that has not been linked yet.
    DependencyReference(NamedPropRef),
    /// A linked reference: the index of the referenced property's cell.
    ResolvedDependencyReference(usize),
}

/// The unresolved references in `p`, in depth-first order.
pub open spec fn refs(p: Pon) -> Seq<NamedPropRef>
    decreases p,
{
    match p {
        Pon::TypedPon(b) => refs(b.data),
        Pon::Object(v) => refs_fields(v@),
        Pon::Array(v) => refs_list(v@),
        Pon::DependencyReference(n) => seq![n],
        _ => Seq::empty(),
    }
}

pub open spec fn refs_list(s: Seq<Pon>) -> Seq<NamedPropRef>
    decreases s,
{
    if s.len() == 0 {
        Seq::empty()
    } else {
        refs_list(s.drop_last()) + refs(s.last())
    }
}

pub open spec fn refs_fields(s: Seq<(String, Pon)>) -> Seq<NamedPropRef>
    decreases s,
{
    if s.len() == 0 {
        Seq::empty()
    } else {
        refs_fields(s.drop_last()) + refs(s.last().1)
    }
}

/// The references held in `s`, as values.
pub open spec fn deref_all(s: Seq<&NamedPropRef>) -> Seq<NamedPropRef> {
    s.map_values(|r: &NamedPropRef| *r)
}

impl EntityPath {
    /// An equal, separately owned path.
    pub fn duplicate(&self) -> (r: EntityPath)
        ensures
            r == *self,
        decreases self,
    {
        match self {
            EntityPath::This => EntityPath::This,
            EntityPath::Parent => EntityPath::Parent,
            EntityPath::Named(n) => EntityPath::Named(n.clone()),
            EntityPath::Search(base, n) => EntityPath::Search(Box::new(base.duplicate()), n.clone()),
        }
    }
}

impl NamedPropRef {
    /// An equal, separately owned reference.
    pub fn duplicate(&self) -> (r: NamedPropRef)
        ensures
            r == *self,
    {
        NamedPropRef { entity_path: self.entity_path.duplicate(), property_key: self.property_key.clone() }
    }
}

/// If `x` is among the references of `s[i]`, it is among those of `s`.
pub proof fn lemma_refs_list_contains(s: Seq<Pon>, i: int, x: NamedPropRef)
    requires
        0 <= i < s.len(),
        refs(s[i]).contains(x),
    ensures
        refs_list(s).contains(x),
    decreases s.len(),
{
    let a = refs_list(s.drop_last());
    let b = refs(s.last());
    if i == s.len() - 1 {
        let j = choose|j: int| 0 <= j < b.len() && b[j] == x;
        assert((a + b)[a.len() + j] == x);
    } else {
        assert(s[i] == s.drop_last()[i]);
        lemma_refs_list_contains(s.drop_last(), i, x);
        let j = choose|j: int| 0 <= j < a.len() && a[j] == x;
        assert((a + b)[j] == x);
    }
}

/// If `x` is among the references of the value of field `i` of `s`, it is
/// among those of `s`.
pub proof fn lemma_refs_fields_contains(s: Seq<(String, Pon)>, i: int, x: NamedPropRef)
    requires
        0 <= i < s.len(),
        refs(s[i].1).contains(x),
    ensures
        refs_fields(s).contains(x),
    decreases s.len(),
{
    let a = refs_fields(s.drop_last());
    let b = refs(s.last().1);
    if i == s.len() - 1 {
        let j = choose|j: int| 0 <= j < b.len() && b[j] == x;
        assert((a + b)[a.len() + j] == x);
    } else {
        assert(s[i] == s.drop_last()[i]);
        lemma_refs_fields_contains(s.drop_last(), i, x);
        let j = choose|j: int| 0 <= j < a.len() && a[j] == x;
        assert((a + b)[j] == x);
    }
}

impl Pon {
    /// Appends to `out` every unresolved reference in this expression, in
    /// depth-first order.
    pub fn get_dependency_references<'a>(&'a self, out: &mut Vec<&'a NamedPropRef>)
        ensures
            deref_all(final(out)@) == deref_all(old(out)@) + refs(*self),
        decreases self,
    {
        match self {
            Pon::TypedPon(b) => {
                b.data.get_dependency_references(out);
            },
            Pon::Object(v) => {
                let ghost start = out@;
                let mut i: usize = 0;
                while i < v.len()
                    invariant
                        i <= v.len(),
                        *self == Pon::Object(*v),
                        deref_all(out@) == deref_all(start) + refs_fields(v@.subrange(0, i as int)),
                    decreases v.len() - i,
                {
                    proof {
                        let pv: Pon = *self;
                        let w = pv->Object_0;
                        assert(decreases_to!(pv => w));
                        assert(decreases_to!(w => w[i as int]));
                    }
                    assert(decreases_to!(v@[i as int] => v@[i as int].1));
                    v[i].1.get_dependency_references(out);
                    assert(v@.subrange(0, i + 1).drop_last() == v@.subrange(0, i as int));
                    i = i + 1;
                }
                assert(v@.subrange(0, v.len() as int) == v@);
            },
            Pon::Array(v) => {
                let ghost start = out@;
                let mut i: usize = 0;
                while i < v.len()
                    invariant
                        i <= v.len(),
                        *self == Pon::Array(*v),
                        deref_all(out@) == deref_all(start) + refs_list(v@.subrange(0, i as int)),
                    decreases v.len() - i,
                {
                    proof {
                        let pv: Pon = *self;
                        let w = pv->Array_0;
                        assert(decreases_to!(pv => w));
                        assert(decreases_to!(w => w[i as int]));
                    }
                    v[i].get_dependency_references(out);
                    assert(v@.subrange(0, i + 1).drop_last() == v@.subrange(0, i as int));
                    i = i + 1;
                }
                assert(v@.subrange(0, v.len() as int) == v@);
            },
            Pon::DependencyReference(n) => {
                out.push(n);
                assert(deref_all(out@) == deref_all(old(out)@) + seq![*n]);
            },
            _ => {
                assert(deref_all(out@) == deref_all(out@) + refs(*self));
            },
        }
    }
}

} // verus!
