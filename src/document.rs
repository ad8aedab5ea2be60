use vstd::prelude::*;
use crate::pon::{EntityPath, NamedPropRef, Pon, TypedPon, deref_all, refs};

verus! {

/// Identifies an entity of a document. Identifiers grow with each append and
/// are never reused.
pub type EntityId = u64;

/// The parent identifier recorded for an entity appended at the top level.
pub const NO_PARENT: u64 = 18446744073709551615;

#[derive(Debug, PartialEq)]
pub enum DocError {
    /// An entity path or a dependency target does not resolve.
    BadReference,
    /// The entity has no property of this name.
    NoSuchProperty(String),
    NoSuchEntity,
    /// An append under a parent that does not exist.
    InvalidParent,
    /// A chain of dependants is longer than the number of property cells,
    /// which only a cycle of references can cause.
    DependencyCycle,
}

/// One step of a pre-order walk over the entity tree.
#[derive(Debug, Clone, Copy, PartialEq, Eq, Structural)]
pub enum WalkStep {
    /// The walk reaches an entity, before its children.
    Enter(EntityId),
    /// The walk leaves an entity, after its children.
    Leave(EntityId),
}

/// The resolved identity of a property: an entity and a property key.
#[derive(Debug, PartialEq)]
pub struct PropRef {
    pub entity_id: EntityId,
    pub property_key: String,
}

impl View for PropRef {
    type V = (EntityId, Seq<char>);

    open spec fn view(&self) -> (EntityId, Seq<char>) {
        (self.entity_id, self.property_key@)
    }
}

/// Each key of `keys` paired with the entity `id`.
pub open spec fn pairs(id: EntityId, keys: Seq<Seq<char>>) -> Seq<(EntityId, Seq<char>)> {
    keys.map_values(|k: Seq<char>| (id, k))
}

/// How many entries of `ts` equal `p`.
pub open spec fn hits(ts: Seq<(EntityId, Seq<char>)>, p: (EntityId, Seq<char>)) -> nat
    decreases ts.len(),
{
    if ts.len() == 0 {
        0
    } else {
        hits(ts.drop_last(), p) + if ts.last() == p {
            1nat
        } else {
            0nat
        }
    }
}

/// `n` copies of `x`.
pub open spec fn copies(x: (EntityId, Seq<char>), n: nat) -> Seq<(EntityId, Seq<char>)> {
    Seq::new(n, |_i: int| x)
}

proof fn lemma_hits_pos(ts: Seq<(EntityId, Seq<char>)>, p: (EntityId, Seq<char>))
    requires
        hits(ts, p) > 0,
    ensures
        exists|j: int| 0 <= j < ts.len() && ts[j] == p,
    decreases ts.len(),
{
    if ts.last() != p {
        lemma_hits_pos(ts.drop_last(), p);
        let j = choose|j: int| 0 <= j < ts.len() - 1 && ts.drop_last()[j] == p;
        assert(ts[j] == p);
    } else {
        assert(ts[ts.len() - 1] == p);
    }
}

/// The views of a sequence of property references.
pub open spec fn views(s: Seq<PropRef>) -> Seq<(EntityId, Seq<char>)> {
    s.map_values(|p: PropRef| p@)
}

struct Property {
    key: String,
    /// Index of the property's expression cell in the document's cell table.
    cell: usize,
    dependants: Vec<PropRef>,
}

struct Entity {
    id: EntityId,
    type_tag: String,
    name: Option<String>,
    children_ids: Vec<EntityId>,
    parent_id: EntityId,
    properties: Vec<Property>,
}

/// A document: a tree of entities, each with named properties whose
/// expressions live in a shared table of cells. A linked reference inside an
/// expression is the index of the referenced property's cell, so a read sees
/// the referenced property's current value.
pub struct Document {
    root: EntityId,
    /// The entity with identifier `i` is at index `i - 1`.
    entities: Vec<Entity>,
    cells: Vec<Pon>,
}

/// Position of the last property with key `key` in `s`, or -1.
spec fn prop_pos(s: Seq<Property>, key: Seq<char>) -> int
    decreases s.len(),
{
    if s.len() == 0 {
        -1
    } else if s.last().key@ == key {
        s.len() - 1
    } else {
        prop_pos(s.drop_last(), key)
    }
}

proof fn lemma_prop_pos(s: Seq<Property>, key: Seq<char>)
    ensures
        -1 <= prop_pos(s, key) < s.len(),
        prop_pos(s, key) >= 0 ==> s[prop_pos(s, key)].key@ == key,
        prop_pos(s, key) == -1 ==> forall|i: int| 0 <= i < s.len() ==> s[i].key@ != key,
    decreases s.len(),
{
    if s.len() > 0 {
        lemma_prop_pos(s.drop_last(), key);
        assert(forall|i: int| 0 <= i < s.len() - 1 ==> s[i] == s.drop_last()[i]);
    }
}

/// Property lookups do not depend on the cells or dependant lists.
proof fn lemma_prop_pos_keys(s: Seq<Property>, t: Seq<Property>, key: Seq<char>)
    requires
        s.len() == t.len(),
        forall|i: int| 0 <= i < s.len() ==> s[i].key@ == t[i].key@,
    ensures
        prop_pos(s, key) == prop_pos(t, key),
    decreases s.len(),
{
    if s.len() > 0 {
        lemma_prop_pos_keys(s.drop_last(), t.drop_last(), key);
    }
}

/// Identifier of the newest entity among the first `k` whose name is `n`.
spec fn name_pos(s: Seq<Entity>, n: Seq<char>, k: int) -> Option<EntityId>
    decreases k,
{
    if k <= 0 {
        None
    } else if s[k - 1].name is Some && s[k - 1].name->0@ == n {
        Some(k as EntityId)
    } else {
        name_pos(s, n, k - 1)
    }
}

proof fn lemma_name_pos_same(s: Seq<Entity>, t: Seq<Entity>, n: Seq<char>, k: int)
    requires
        0 <= k <= s.len(),
        k <= t.len(),
        forall|i: int| 0 <= i < k ==> s[i].name == t[i].name,
    ensures
        name_pos(s, n, k) == name_pos(t, n, k),
    decreases k,
{
    if k > 0 {
        lemma_name_pos_same(s, t, n, k - 1);
    }
}

spec fn name_view(n: Option<String>) -> Option<Seq<char>> {
    match n {
        Some(x) => Some(x@),
        None => None,
    }
}

spec fn search_in(ents: Seq<Entity>, id: EntityId, n: Seq<char>) -> Option<EntityId>
    decreases ents.len() + 1 - id, 1nat, 0nat,
{
    if !(1 <= id <= ents.len()) {
        None
    } else if name_view(ents[id - 1].name) == Some(n) {
        Some(id)
    } else {
        kids_in(ents, id, 0, n)
    }
}

spec fn kids_in(ents: Seq<Entity>, id: EntityId, i: int, n: Seq<char>) -> Option<EntityId>
    decreases ents.len() + 1 - id, 0nat, ents[id - 1].children_ids@.len() - i,
    when 0 <= i && 1 <= id <= ents.len()
{
    if i >= ents[id - 1].children_ids@.len() {
        None
    } else {
        let c = ents[id - 1].children_ids@[i];
        let found = if id < c <= ents.len() {
            search_in(ents, c, n)
        } else {
            None
        };
        if found is Some {
            found
        } else {
            kids_in(ents, id, i + 1, n)
        }
    }
}

spec fn resolve_in(ents: Seq<Entity>, start: EntityId, path: EntityPath) -> Option<EntityId>
    decreases path,
{
    match path {
        EntityPath::This => Some(start),
        EntityPath::Parent => if 1 <= start <= ents.len() {
            Some(ents[start - 1].parent_id)
        } else {
            None
        },
        EntityPath::Named(n) => name_pos(ents, n@, ents.len() as int),
        EntityPath::Search(base, n) => match resolve_in(ents, start, *base) {
            Some(b) => search_in(ents, b, n@),
            None => None,
        },
    }
}

/// Two entity tables with the same tree: names, children and parents.
spec fn same_tree(a: Seq<Entity>, b: Seq<Entity>) -> bool {
    &&& a.len() == b.len()
    &&& forall|i: int|
        0 <= i < a.len() ==> {
            &&& #[trigger] a[i].name == b[i].name
            &&& a[i].id == b[i].id
            &&& a[i].children_ids@ == b[i].children_ids@
            &&& a[i].parent_id == b[i].parent_id
            &&& a[i].type_tag == b[i].type_tag
        }
}

proof fn lemma_search_frame(a: Seq<Entity>, b: Seq<Entity>, id: EntityId, n: Seq<char>)
    requires
        same_tree(a, b),
    ensures
        search_in(a, id, n) == search_in(b, id, n),
    decreases a.len() + 1 - id, 1nat, 0nat,
{
    if 1 <= id <= a.len() {
        assert(a[id - 1].name == b[id - 1].name);
        lemma_kids_frame(a, b, id, 0, n);
    }
}

proof fn lemma_kids_frame(a: Seq<Entity>, b: Seq<Entity>, id: EntityId, i: int, n: Seq<char>)
    requires
        same_tree(a, b),
        0 <= i,
        1 <= id <= a.len(),
    ensures
        kids_in(a, id, i, n) == kids_in(b, id, i, n),
    decreases a.len() + 1 - id, 0nat, a[id - 1].children_ids@.len() - i,
{
    assert(a[id - 1].name == b[id - 1].name);
    if i < a[id - 1].children_ids@.len() {
        let c = a[id - 1].children_ids@[i];
        if id < c <= a.len() {
            lemma_search_frame(a, b, c, n);
        }
        lemma_kids_frame(a, b, id, i + 1, n);
    }
}

proof fn lemma_resolve_frame(a: Seq<Entity>, b: Seq<Entity>, start: EntityId, path: EntityPath)
    requires
        same_tree(a, b),
    ensures
        resolve_in(a, start, path) == resolve_in(b, start, path),
    decreases path,
{
    match path {
        EntityPath::This => {},
        EntityPath::Parent => {
            if 1 <= start <= a.len() {
                assert(a[start - 1].name == b[start - 1].name);
            }
        },
        EntityPath::Named(n) => {
            assert forall|i: int| 0 <= i < a.len() implies a[i].name == b[i].name by {
                assert(a[i].name == b[i].name);
            }
            lemma_name_pos_same(a, b, n@, a.len() as int);
        },
        EntityPath::Search(base, n) => {
            lemma_resolve_frame(a, b, start, *base);
            if let Some(x) = resolve_in(a, start, *base) {
                lemma_search_frame(a, b, x, n@);
            }
        },
    }
}

spec fn has_prop_in(ents: Seq<Entity>, id: EntityId, key: Seq<char>) -> bool {
    1 <= id <= ents.len() && prop_pos(ents[id - 1].properties@, key) >= 0
}

spec fn prop_in(ents: Seq<Entity>, id: EntityId, key: Seq<char>) -> Property {
    ents[id - 1].properties@[prop_pos(ents[id - 1].properties@, key)]
}

/// `b` holds every property of `a`, in the same cell, with `a`'s dependants
/// as a prefix of its own; the tree is the same.
spec fn props_grow(a: Seq<Entity>, b: Seq<Entity>) -> bool {
    &&& same_tree(a, b)
    &&& forall|id: EntityId, key: Seq<char>|
        #[trigger] has_prop_in(a, id, key) ==> {
            &&& has_prop_in(b, id, key)
            &&& prop_in(b, id, key).cell == prop_in(a, id, key).cell
            &&& prop_in(a, id, key).dependants@.len() <= prop_in(b, id, key).dependants@.len()
            &&& prop_in(b, id, key).dependants@.subrange(0, prop_in(a, id, key).dependants@.len() as int)
                == prop_in(a, id, key).dependants@
        }
}

proof fn lemma_grow_trans(a: Seq<Entity>, b: Seq<Entity>, c: Seq<Entity>)
    requires
        props_grow(a, b),
        props_grow(b, c),
    ensures
        props_grow(a, c),
{
    assert forall|i: int| 0 <= i < a.len() implies #[trigger] a[i].name == c[i].name && a[i].id == c[i].id
        && a[i].children_ids@ == c[i].children_ids@ && a[i].parent_id == c[i].parent_id && a[i].type_tag
        == c[i].type_tag by {
        assert(a[i].name == b[i].name);
        assert(b[i].name == c[i].name);
    }
    assert forall|id: EntityId, key: Seq<char>| #[trigger] has_prop_in(a, id, key) implies {
        &&& has_prop_in(c, id, key)
        &&& prop_in(c, id, key).cell == prop_in(a, id, key).cell
        &&& prop_in(a, id, key).dependants@.len() <= prop_in(c, id, key).dependants@.len()
        &&& prop_in(c, id, key).dependants@.subrange(0, prop_in(a, id, key).dependants@.len() as int)
            == prop_in(a, id, key).dependants@
    } by {
        assert(has_prop_in(b, id, key));
        let da = prop_in(a, id, key).dependants@;
        let db = prop_in(b, id, key).dependants@;
        let dc = prop_in(c, id, key).dependants@;
        assert(dc.subrange(0, da.len() as int) =~= db.subrange(0, da.len() as int));
    }
}

/// Every property of `b` is one of `a`, or property `key` of entity `id`.
spec fn only_new(a: Seq<Entity>, b: Seq<Entity>, id: EntityId, key: Seq<char>) -> bool {
    forall|i: EntityId, k: Seq<char>| #[trigger] has_prop_in(b, i, k) ==> has_prop_in(a, i, k) || (i == id && k == key)
}

/// A prefix of a sequence of dependants, or the sequence itself.
spec fn is_prefix(a: Seq<PropRef>, b: Seq<PropRef>) -> bool {
    a.len() <= b.len() && b.subrange(0, a.len() as int) == a
}

/// Replacing one entity by one with the same tree fields whose properties
/// keep their positions, cells and dependants (as a prefix) grows the table.
proof fn lemma_grow_update(a: Seq<Entity>, idx: int, e: Entity)
    requires
        0 <= idx < a.len(),
        e.name == a[idx].name,
        e.id == a[idx].id,
        e.children_ids@ == a[idx].children_ids@,
        e.parent_id == a[idx].parent_id,
        e.type_tag == a[idx].type_tag,
        forall|k: Seq<char>| #[trigger] prop_pos(a[idx].properties@, k) >= 0 ==> {
            let i = prop_pos(a[idx].properties@, k);
            &&& prop_pos(e.properties@, k) == i
            &&& e.properties@[i].cell == a[idx].properties@[i].cell
            &&& is_prefix(a[idx].properties@[i].dependants@, e.properties@[i].dependants@)
        },
    ensures
        props_grow(a, a.update(idx, e)),
{
    let b = a.update(idx, e);
    assert forall|i: int| 0 <= i < a.len() implies #[trigger] a[i].name == b[i].name && a[i].id == b[i].id
        && a[i].children_ids@ == b[i].children_ids@ && a[i].parent_id == b[i].parent_id && a[i].type_tag
        == b[i].type_tag by {}
    assert forall|id: EntityId, key: Seq<char>| #[trigger] has_prop_in(a, id, key) implies {
        &&& has_prop_in(b, id, key)
        &&& prop_in(b, id, key).cell == prop_in(a, id, key).cell
        &&& prop_in(a, id, key).dependants@.len() <= prop_in(b, id, key).dependants@.len()
        &&& prop_in(b, id, key).dependants@.subrange(0, prop_in(a, id, key).dependants@.len() as int)
            == prop_in(a, id, key).dependants@
    } by {
        if id - 1 == idx {
            assert(prop_pos(a[idx].properties@, key) >= 0);
        } else {
            let d = prop_in(a, id, key).dependants@;
            assert(d.subrange(0, d.len() as int) =~= d);
        }
    }
}

proof fn lemma_grow_keeps_dependant(a: Seq<Entity>, b: Seq<Entity>, id: EntityId, key: Seq<char>, x: (
    EntityId,
    Seq<char>,
))
    requires
        props_grow(a, b),
        has_prop_in(a, id, key),
        views(prop_in(a, id, key).dependants@).contains(x),
    ensures
        has_prop_in(b, id, key),
        views(prop_in(b, id, key).dependants@).contains(x),
{
    let da = prop_in(a, id, key).dependants@;
    let db = prop_in(b, id, key).dependants@;
    let i = choose|i: int| 0 <= i < views(da).len() && views(da)[i] == x;
    assert(db.subrange(0, da.len() as int)[i] == da[i]);
    assert(views(db)[i] == x);
}

proof fn lemma_grow_refl(a: Seq<Entity>)
    ensures
        props_grow(a, a),
{
    assert forall|id: EntityId, key: Seq<char>| #[trigger] has_prop_in(a, id, key) implies {
        &&& has_prop_in(a, id, key)
        &&& prop_in(a, id, key).cell == prop_in(a, id, key).cell
        &&& prop_in(a, id, key).dependants@.len() <= prop_in(a, id, key).dependants@.len()
        &&& prop_in(a, id, key).dependants@.subrange(0, prop_in(a, id, key).dependants@.len() as int)
            == prop_in(a, id, key).dependants@
    } by {
        let d = prop_in(a, id, key).dependants@;
        assert(d.subrange(0, d.len() as int) =~= d);
    }
}

/// Whether the reference `n`, seen from entity `e`, leads to a property.
spec fn target_has_prop(ents: Seq<Entity>, e: EntityId, n: NamedPropRef) -> bool {
    match resolve_in(ents, e, n.entity_path) {
        Some(t) => has_prop_in(ents, t, n.property_key@),
        None => false,
    }
}

/// `r` is `p` with each unresolved reference replaced by a linked reference
/// to the cell of the property it leads to from entity `e`.
spec fn linked(ents: Seq<Entity>, e: EntityId, p: Pon, r: Pon) -> bool
    decreases p,
{
    match p {
        Pon::TypedPon(b) => r is TypedPon && r->TypedPon_0.type_tag == b.type_tag && linked(
            ents,
            e,
            b.data,
            r->TypedPon_0.data,
        ),
        Pon::Object(v) => r is Object && r->Object_0@.len() == v@.len() && forall|i: int|
            0 <= i < v@.len() ==> (#[trigger] r->Object_0@[i]).0 == v@[i].0 && linked(
                ents,
                e,
                v@[i].1,
                r->Object_0@[i].1,
            ),
        Pon::Array(v) => r is Array && r->Array_0@.len() == v@.len() && forall|i: int|
            0 <= i < v@.len() ==> linked(ents, e, v@[i], #[trigger] r->Array_0@[i]),
        Pon::DependencyReference(n) => match resolve_in(ents, e, n.entity_path) {
            Some(t) => has_prop_in(ents, t, n.property_key@) && r == Pon::ResolvedDependencyReference(
                prop_in(ents, t, n.property_key@).cell,
            ),
            None => false,
        },
        _ => r == p,
    }
}

/// `r` is `p` with each linked reference replaced by the expansion of the
/// referenced cell, to a nesting depth of `fuel`; deeper references, and
/// references to no cell, stay as they are.
pub open spec fn expanded(cells: Seq<Pon>, p: Pon, r: Pon, fuel: nat) -> bool
    decreases fuel, p,
{
    match p {
        Pon::ResolvedDependencyReference(c) => if fuel > 0 && c < cells.len() {
            expanded(cells, cells[c as int], r, (fuel - 1) as nat)
        } else {
            r == p
        },
        Pon::TypedPon(b) => r is TypedPon && r->TypedPon_0.type_tag == b.type_tag && expanded(
            cells,
            b.data,
            r->TypedPon_0.data,
            fuel,
        ),
        Pon::Object(v) => r is Object && r->Object_0@.len() == v@.len() && forall|i: int|
            0 <= i < v@.len() ==> (#[trigger] r->Object_0@[i]).0 == v@[i].0 && expanded(
                cells,
                v@[i].1,
                r->Object_0@[i].1,
                fuel,
            ),
        Pon::Array(v) => r is Array && r->Array_0@.len() == v@.len() && forall|i: int|
            0 <= i < v@.len() ==> expanded(cells, v@[i], #[trigger] r->Array_0@[i], fuel),
        _ => r == p,
    }
}

/// The cascade of property `key` of entity `e`: the property itself, then
/// the cascade of each of its dependants in order; `None` where a dependant
/// is missing or the chain is deeper than `fuel`.
spec fn cascade_in(ents: Seq<Entity>, e: EntityId, key: Seq<char>, fuel: nat) -> Option<
    Seq<(EntityId, Seq<char>)>,
>
    decreases fuel, 0nat, 0nat,
{
    if !has_prop_in(ents, e, key) || fuel == 0 {
        None
    } else {
        match cascade_list(ents, prop_in(ents, e, key).dependants@, (fuel - 1) as nat) {
            Some(s) => Some(seq![(e, key)] + s),
            None => None,
        }
    }
}

/// The cascades of `deps`, one after another.
spec fn cascade_list(ents: Seq<Entity>, deps: Seq<PropRef>, fuel: nat) -> Option<
    Seq<(EntityId, Seq<char>)>,
>
    decreases fuel, 1nat, deps.len(),
{
    if deps.len() == 0 {
        Some(Seq::empty())
    } else {
        match cascade_list(ents, deps.drop_last(), fuel) {
            Some(a) => match cascade_in(ents, deps.last().entity_id, deps.last().property_key@, fuel) {
                Some(b) => Some(a + b),
                None => None,
            },
            None => None,
        }
    }
}

proof fn lemma_cascade_prefix_none(ents: Seq<Entity>, deps: Seq<PropRef>, i: int, fuel: nat)
    requires
        0 <= i <= deps.len(),
        cascade_list(ents, deps.subrange(0, i), fuel) is None,
    ensures
        cascade_list(ents, deps, fuel) is None,
    decreases deps.len(),
{
    if i == deps.len() {
        assert(deps.subrange(0, i) == deps);
    } else {
        assert(deps.drop_last().subrange(0, i) == deps.subrange(0, i));
        lemma_cascade_prefix_none(ents, deps.drop_last(), i, fuel);
    }
}

/// A separately owned copy of a value that holds no nested values.
fn copy_leaf(p: &Pon) -> (r: Pon)
    requires
        !(p is TypedPon || p is Object || p is Array),
    ensures
        r == *p,
{
    match p {
        Pon::Nil => Pon::Nil,
        Pon::Integer(i) => Pon::Integer(*i),
        Pon::Number(x) => Pon::Number(x.clone()),
        Pon::String(x) => Pon::String(x.clone()),
        Pon::Boolean(b) => Pon::Boolean(*b),
        Pon::DependencyReference(n) => Pon::DependencyReference(n.duplicate()),
        Pon::ResolvedDependencyReference(c) => Pon::ResolvedDependencyReference(*c),
        _ => Pon::Nil,
    }
}

/// Finds the position of the last property with key `key`.
fn find_property(props: &Vec<Property>, key: &String) -> (r: Option<usize>)
    ensures
        match r {
            Some(i) => i == prop_pos(props@, key@),
            None => prop_pos(props@, key@) == -1,
        },
{
    let mut i: usize = props.len();
    assert(props@.subrange(0, i as int) == props@);
    while i > 0
        invariant
            i <= props@.len(),
            prop_pos(props@, key@) == prop_pos(props@.subrange(0, i as int), key@),
        decreases i,
    {
        assert(props@.subrange(0, i as int).drop_last() == props@.subrange(0, i - 1));
        if props[i - 1].key == *key {
            return Some(i - 1);
        }
        i = i - 1;
    }
    None
}

impl Document {
    /// Number of entities.
    pub closed spec fn len(&self) -> nat {
        self.entities@.len()
    }

    /// The identifier the root entity gets.
    pub closed spec fn root_id(&self) -> EntityId {
        self.root
    }

    /// Whether `id` identifies an entity of this document.
    pub open spec fn has_entity(&self, id: EntityId) -> bool {
        1 <= id <= self.len()
    }

    /// The record of entity `id`.
    closed spec fn ent(&self, id: EntityId) -> Entity {
        self.entities@[id - 1]
    }

    /// Children of an entity, in append order.
    pub closed spec fn children(&self, id: EntityId) -> Seq<EntityId> {
        self.ent(id).children_ids@
    }

    /// The parent recorded for an entity (`NO_PARENT` at the top level).
    pub closed spec fn parent(&self, id: EntityId) -> EntityId {
        self.ent(id).parent_id
    }

    /// The type tag of an entity.
    pub closed spec fn type_of(&self, id: EntityId) -> Seq<char> {
        self.ent(id).type_tag@
    }

    /// The name of an entity, if it has one.
    pub closed spec fn name_of(&self, id: EntityId) -> Option<Seq<char>> {
        match self.ent(id).name {
            Some(n) => Some(n@),
            None => None,
        }
    }

    /// The entity that a name lookup finds: the newest entity with that name.
    pub closed spec fn named(&self, n: Seq<char>) -> Option<EntityId> {
        name_pos(self.entities@, n, self.len() as int)
    }

    /// Number of property cells.
    pub closed spec fn num_cells(&self) -> nat {
        self.cells@.len()
    }

    /// The document's invariant: identifiers match positions, children are
    /// existing entities appended after their parent, and every property's
    /// cell exists.
    pub closed spec fn wf(&self) -> bool {
        &&& self.root == 1
        &&& self.entities@.len() < NO_PARENT
        &&& forall|i: int| 0 <= i < self.entities@.len() ==> #[trigger] self.entities@[i].id == i + 1
        &&& forall|i: int, j: int|
            0 <= i < self.entities@.len() && 0 <= j < self.entities@[i].children_ids@.len()
                ==> i + 1 < #[trigger] self.entities@[i].children_ids@[j] <= self.entities@.len()
        &&& forall|i: int, j: int|
            0 <= i < self.entities@.len() && 0 <= j < self.entities@[i].children_ids@.len()
                ==> self.entities@[#[trigger] self.entities@[i].children_ids@[j] - 1].parent_id == i + 1
        &&& forall|i: int, j: int|
            0 <= i < self.entities@.len() && 0 <= j < self.entities@[i].properties@.len()
                ==> #[trigger] self.entities@[i].properties@[j].cell < self.cells@.len()
        &&& forall|i: int, j1: int, j2: int|
            0 <= i < self.entities@.len() && 0 <= j1 < self.entities@[i].properties@.len() && 0 <= j2
                < self.entities@[i].properties@.len() && j1 != j2 ==> #[trigger] self.entities@[i].properties@[j1].key@
                != #[trigger] self.entities@[i].properties@[j2].key@
        &&& forall|i1: int, j1: int, i2: int, j2: int|
            0 <= i1 < self.entities@.len() && 0 <= j1 < self.entities@[i1].properties@.len() && 0 <= i2
                < self.entities@.len() && 0 <= j2 < self.entities@[i2].properties@.len() && (i1 != i2 || j1
                != j2) ==> #[trigger] self.entities@[i1].properties@[j1].cell != #[trigger] self.entities@[i2].properties@[j2].cell
    }

    /// Creates an empty document.
    pub fn new() -> (r: Document)
        ensures
            r.wf(),
            r.len() == 0,
            r.num_cells() == 0,
            r.root_id() == 1,
            forall|n: Seq<char>| #[trigger] r.named(n) is None,
            forall|id: EntityId, k: Seq<char>| !#[trigger] r.has_prop(id, k),
    {
        Document { root: 1, entities: Vec::new(), cells: Vec::new() }
    }

    /// Appends an entity under `parent_id` (or at the top level for
    /// `NO_PARENT`) and returns its new identifier.
    pub fn append_entity(&mut self, parent_id: EntityId, type_tag: String, name: Option<String>) -> (r:
        Result<EntityId, DocError>)
        requires
            old(self).wf(),
            old(self).len() + 1 < NO_PARENT,
        ensures
            final(self).wf(),
            parent_id != NO_PARENT && !old(self).has_entity(parent_id) ==> r == Err::<EntityId, DocError>(
                DocError::InvalidParent) && *final(self) == *old(self),
            parent_id == NO_PARENT || old(self).has_entity(parent_id) ==> {
                &&& r == Ok::<EntityId, DocError>((old(self).len() + 1) as EntityId)
                &&& !old(self).has_entity(r->Ok_0)
                &&& final(self).len() == old(self).len() + 1
                &&& final(self).root_id() == old(self).root_id()
                &&& final(self).num_cells() == old(self).num_cells()
                &&& final(self).cells_view() == old(self).cells_view()
                &&& final(self).keys(r->Ok_0) == Seq::<Seq<char>>::empty()
                &&& forall|k: Seq<char>| !#[trigger] final(self).has_prop(r->Ok_0, k)
                &&& forall|id: EntityId, k: Seq<char>| #[trigger] final(self).has_prop(id, k) == old(self).has_prop(id, k)
                &&& forall|id: EntityId, k: Seq<char>| #[trigger] old(self).has_prop(id, k) ==> final(self).cell_of(id, k)
                    == old(self).cell_of(id, k) && final(self).dependants(id, k) == old(self).dependants(id, k)
                &&& forall|id: EntityId| #[trigger] old(self).has_entity(id) ==> final(self).keys(id) == old(self).keys(id)
                &&& forall|m: Seq<char>| #[trigger] final(self).named(m) == if name is Some && name->0@ == m {
                    Some(r->Ok_0)
                } else {
                    old(self).named(m)
                }
                &&& final(self).num_cells() == old(self).num_cells()
                &&& final(self).children(r->Ok_0) == Seq::<EntityId>::empty()
                &&& final(self).parent(r->Ok_0) == parent_id
                &&& final(self).type_of(r->Ok_0) == type_tag@
                &&& final(self).name_of(r->Ok_0) == match name {
                    Some(n) => Some(n@),
                    None => None::<Seq<char>>,
                }
                &&& forall|id: EntityId| #[trigger] old(self).has_entity(id) ==> {
                    &&& final(self).children(id) == if id == parent_id {
                        old(self).children(id).push(r->Ok_0)
                    } else {
                        old(self).children(id)
                    }
                    &&& final(self).parent(id) == old(self).parent(id)
                    &&& final(self).type_of(id) == old(self).type_of(id)
                    &&& final(self).name_of(id) == old(self).name_of(id)
                }
            },
    {
        let id: EntityId = self.entities.len() as u64 + 1;
        if parent_id != NO_PARENT {
            if parent_id == 0 || parent_id > self.entities.len() as u64 {
                return Err(DocError::InvalidParent);
            }
            let idx: usize = (parent_id - 1) as usize;
            let mut parent = self.entities.remove(idx);
            parent.children_ids.push(id);
            self.entities.insert(idx, parent);
            assert(self.entities@ == old(self).entities@.update(idx as int, parent));
        }
        let entity = Entity {
            id: id,
            type_tag: type_tag,
            name: name,
            children_ids: Vec::new(),
            parent_id: parent_id,
            properties: Vec::new(),
        };
        let ghost before = self.entities@;
        self.entities.push(entity);
        proof {
            let a = old(self).entities@;
            let b = self.entities@;
            assert(forall|i: int| 0 <= i < a.len() ==> b[i].properties == a[i].properties);
            assert forall|m: Seq<char>| #[trigger] self.named(m) == if name is Some && name->0@ == m {
                Some(id)
            } else {
                old(self).named(m)
            } by {
                assert forall|i: int| 0 <= i < a.len() implies a[i].name == b[i].name by {
                    assert(b[i] == before[i]);
                }
                lemma_name_pos_same(a, b, m, a.len() as int);
            }
            assert forall|eid: EntityId, k: Seq<char>| #[trigger] self.has_prop(eid, k) == old(self).has_prop(eid, k) by {
                if 1 <= eid <= a.len() {
                    assert(b[eid - 1].properties == a[eid - 1].properties);
                }
            }
            assert forall|eid: EntityId| #[trigger] old(self).has_entity(eid) implies self.keys(eid) == old(self).keys(eid) by {
                assert(b[eid - 1].properties == a[eid - 1].properties);
            }
            assert forall|eid: EntityId, k: Seq<char>| #[trigger] old(self).has_prop(eid, k) implies self.cell_of(eid, k)
                == old(self).cell_of(eid, k) && self.dependants(eid, k) == old(self).dependants(eid, k) by {
                assert(b[eid - 1].properties == a[eid - 1].properties);
            }
            assert(self.keys(id) =~= Seq::<Seq<char>>::empty());
        }
        Ok(id)
    }

    /// First entity named `n` in a depth-first, pre-order walk of the subtree
    /// at `id`, children in append order.
    pub open spec fn search(&self, id: EntityId, n: Seq<char>) -> Option<EntityId>
        decreases self.len() + 1 - id, 1nat, 0nat,
    {
        if !self.has_entity(id) {
            None
        } else if self.name_of(id) == Some(n) {
            Some(id)
        } else {
            self.search_kids(id, 0, n)
        }
    }

    /// First match among the subtrees of the children of `id` from the
    /// `i`-th on.
    pub open spec fn search_kids(&self, id: EntityId, i: int, n: Seq<char>) -> Option<EntityId>
        decreases self.len() + 1 - id, 0nat, self.children(id).len() - i,
        when 0 <= i && self.has_entity(id)
    {
        if i >= self.children(id).len() {
            None
        } else {
            let c = self.children(id)[i];
            let found = if id < c <= self.len() {
                self.search(c, n)
            } else {
                None
            };
            if found is Some {
                found
            } else {
                self.search_kids(id, i + 1, n)
            }
        }
    }

    /// The entity that `path` leads to from `start`.
    pub open spec fn resolve(&self, start: EntityId, path: EntityPath) -> Option<EntityId>
        decreases path,
    {
        match path {
            EntityPath::This => Some(start),
            EntityPath::Parent => if self.has_entity(start) {
                Some(self.parent(start))
            } else {
                None
            },
            EntityPath::Named(n) => self.named(n@),
            EntityPath::Search(base, n) => match self.resolve(start, *base) {
                Some(b) => self.search(b, n@),
                None => None,
            },
        }
    }

    proof fn lemma_search_model(&self, id: EntityId, n: Seq<char>)
        ensures
            self.search(id, n) == search_in(self.entities@, id, n),
        decreases self.len() + 1 - id, 1nat, 0nat,
    {
        if self.has_entity(id) {
            self.lemma_kids_model(id, 0, n);
        }
    }

    proof fn lemma_kids_model(&self, id: EntityId, i: int, n: Seq<char>)
        requires
            0 <= i,
            self.has_entity(id),
        ensures
            self.search_kids(id, i, n) == kids_in(self.entities@, id, i, n),
        decreases self.len() + 1 - id, 0nat, self.children(id).len() - i,
    {
        if i < self.children(id).len() {
            let c = self.children(id)[i];
            if id < c <= self.len() {
                self.lemma_search_model(c, n);
            }
            self.lemma_kids_model(id, i + 1, n);
        }
    }

    proof fn lemma_resolve_path_model(&self, start: EntityId, path: EntityPath)
        ensures
            self.resolve(start, path) == resolve_in(self.entities@, start, path),
        decreases path,
    {
        match path {
            EntityPath::Search(base, n) => {
                self.lemma_resolve_path_model(start, *base);
                if let Some(b) = self.resolve(start, *base) {
                    self.lemma_search_model(b, n@);
                }
            },
            _ => {},
        }
    }

    /// Path resolution on the document is resolution on its entity table.
    proof fn lemma_resolve_model(&self)
        ensures
            forall|start: EntityId, path: EntityPath| #[trigger] self.resolve(start, path) == resolve_in(
                self.entities@,
                start,
                path,
            ),
            forall|id: EntityId, n: Seq<char>| #[trigger] self.search(id, n) == search_in(self.entities@, id, n),
    {
        assert forall|start: EntityId, path: EntityPath| #[trigger] self.resolve(start, path) == resolve_in(
            self.entities@,
            start,
            path,
        ) by {
            self.lemma_resolve_path_model(start, path);
        }
        assert forall|id: EntityId, n: Seq<char>| #[trigger] self.search(id, n) == search_in(self.entities@, id, n) by {
            self.lemma_search_model(id, n);
        }
    }

    /// Looks an entity up by name; the newest entity with the name wins.
    pub fn get_entity_by_name(&self, name: &str) -> (r: Option<EntityId>)
        requires
            self.wf(),
        ensures
            r == self.named(name@),
    {
        let key = name.to_string();
        let mut k: usize = self.entities.len();
        while k > 0
            invariant
                key@ == name@,
                k <= self.entities@.len(),
                self.wf(),
                name_pos(self.entities@, name@, self.entities@.len() as int) == name_pos(
                    self.entities@,
                    name@,
                    k as int,
                ),
            decreases k,
        {
            let e = &self.entities[k - 1];
            match &e.name {
                Some(n) => {
                    if *n == key {
                        return Some(k as EntityId);
                    }
                },
                None => {},
            }
            k = k - 1;
        }
        None
    }

    /// The root identifier.
    pub fn get_root(&self) -> (r: &EntityId)
        ensures
            *r == self.root_id(),
    {
        &self.root
    }

    /// The children of an entity, in append order.
    pub fn get_children(&self, entity_id: &EntityId) -> (r: Result<&Vec<EntityId>, DocError>)
        requires
            self.wf(),
        ensures
            self.has_entity(*entity_id) ==> r is Ok && r->Ok_0@ == self.children(*entity_id),
            !self.has_entity(*entity_id) ==> r == Err::<&Vec<EntityId>, DocError>(DocError::NoSuchEntity),
    {
        if *entity_id == 0 || *entity_id > self.entities.len() as u64 {
            return Err(DocError::NoSuchEntity);
        }
        Ok(&self.entities[(*entity_id - 1) as usize].children_ids)
    }

    /// The type tag of an entity.
    pub fn get_entity_type_name(&self, entity_id: &EntityId) -> (r: Result<&String, DocError>)
        requires
            self.wf(),
        ensures
            self.has_entity(*entity_id) ==> r is Ok && r->Ok_0@ == self.type_of(*entity_id),
            !self.has_entity(*entity_id) ==> r == Err::<&String, DocError>(DocError::NoSuchEntity),
    {
        if *entity_id == 0 || *entity_id > self.entities.len() as u64 {
            return Err(DocError::NoSuchEntity);
        }
        Ok(&self.entities[(*entity_id - 1) as usize].type_tag)
    }

    /// Finds the first entity named `name` in a depth-first, pre-order walk of
    /// the subtree at `entity_id` (the entity itself included).
    pub fn search_children(&self, entity_id: &EntityId, name: &str) -> (r: Result<EntityId, DocError>)
        requires
            self.wf(),
        ensures
            r == match self.search(*entity_id, name@) {
                Some(x) => Ok::<EntityId, DocError>(x),
                None => Err(DocError::BadReference),
            },
        decreases self.len() + 1 - *entity_id,
    {
        let id = *entity_id;
        if id == 0 || id > self.entities.len() as u64 {
            return Err(DocError::BadReference);
        }
        let e = &self.entities[(id - 1) as usize];
        let key = name.to_string();
        match &e.name {
            Some(n) => {
                if *n == key {
                    return Ok(id);
                }
            },
            None => {},
        }
        assert(self.search(id, name@) == self.search_kids(id, 0, name@));
        let mut i: usize = 0;
        while i < e.children_ids.len()
            invariant
                self.wf(),
                id == *entity_id,
                1 <= id <= self.len(),
                *e == self.entities@[id - 1],
                i <= e.children_ids@.len(),
                self.search(id, name@) == self.search_kids(id, i as int, name@),
            decreases e.children_ids@.len() - i,
        {
            let c = e.children_ids[i];
            assert(self.children(id)[i as int] == c);
            assert(id < c <= self.len());
            match self.search_children(&c, name) {
                Ok(found) => {
                    assert(self.search_kids(id, i as int, name@) == Some(found));
                    return Ok(found);
                },
                Err(_) => {},
            }
            i = i + 1;
        }
        Err(DocError::BadReference)
    }

    /// Resolves a symbolic entity path relative to `start_entity_id`.
    pub fn resolve_entity_path(&self, start_entity_id: &EntityId, path: &EntityPath) -> (r: Result<
        EntityId,
        DocError,
    >)
        requires
            self.wf(),
        ensures
            r == match self.resolve(*start_entity_id, *path) {
                Some(x) => Ok::<EntityId, DocError>(x),
                None => Err(DocError::BadReference),
            },
        decreases path,
    {
        match path {
            EntityPath::This => Ok(*start_entity_id),
            EntityPath::Parent => {
                let id = *start_entity_id;
                if id == 0 || id > self.entities.len() as u64 {
                    return Err(DocError::BadReference);
                }
                Ok(self.entities[(id - 1) as usize].parent_id)
            },
            EntityPath::Named(n) => match self.get_entity_by_name(n.as_str()) {
                Some(x) => Ok(x),
                None => Err(DocError::BadReference),
            },
            EntityPath::Search(base, n) => match self.resolve_entity_path(start_entity_id, base) {
                Ok(b) => self.search_children(&b, n.as_str()),
                Err(err) => Err(err),
            },
        }
    }

    /// Whether entity `id` has a property `key`.
    pub closed spec fn has_prop(&self, id: EntityId, key: Seq<char>) -> bool {
        has_prop_in(self.entities@, id, key)
    }

    /// Index of the cell of property `key` of entity `id`.
    pub closed spec fn cell_of(&self, id: EntityId, key: Seq<char>) -> nat {
        prop_in(self.entities@, id, key).cell as nat
    }

    /// The stored (linked, unexpanded) expression of a property.
    pub open spec fn stored(&self, id: EntityId, key: Seq<char>) -> Pon {
        self.cells_view()[self.cell_of(id, key) as int]
    }

    /// The properties recorded as depending on property `key` of entity `id`.
    pub closed spec fn dependants(&self, id: EntityId, key: Seq<char>) -> Seq<(EntityId, Seq<char>)> {
        views(prop_in(self.entities@, id, key).dependants@)
    }

    /// Same entities with the same names, types, parents and children, the
    /// same root and the same name lookups.
    pub open spec fn keeps_tree_of(&self, other: Document) -> bool {
        &&& self.len() == other.len()
        &&& self.root_id() == other.root_id()
        &&& forall|id: EntityId| other.has_entity(id) ==> #[trigger] self.children(id) == other.children(id)
        &&& forall|id: EntityId| other.has_entity(id) ==> #[trigger] self.parent(id) == other.parent(id)
        &&& forall|id: EntityId| other.has_entity(id) ==> #[trigger] self.type_of(id) == other.type_of(id)
        &&& forall|id: EntityId| other.has_entity(id) ==> #[trigger] self.name_of(id) == other.name_of(id)
        &&& forall|n: Seq<char>| #[trigger] self.named(n) == other.named(n)
    }

    proof fn lemma_cell_bound(&self, id: EntityId, k: Seq<char>)
        requires
            self.wf(),
            has_prop_in(self.entities@, id, k),
        ensures
            prop_in(self.entities@, id, k).cell < self.cells@.len(),
    {
        let ps = self.entities@[id - 1].properties@;
        lemma_prop_pos(ps, k);
        assert(self.entities@[id - 1].properties@[prop_pos(ps, k)].cell < self.cells@.len());
    }

    proof fn lemma_keeps_tree(a: Document, b: Document)
        requires
            same_tree(a.entities@, b.entities@),
            a.root == b.root,
        ensures
            b.keeps_tree_of(a),
    {
        assert forall|i: int| 0 <= i < a.entities@.len() implies a.entities@[i].name == b.entities@[i].name by {
            assert(a.entities@[i].name == b.entities@[i].name);
        }
        assert forall|n: Seq<char>| #[trigger] b.named(n) == a.named(n) by {
            lemma_name_pos_same(a.entities@, b.entities@, n, a.entities@.len() as int);
        }
        assert forall|id: EntityId| a.has_entity(id) implies #[trigger] b.children(id) == a.children(id) && b.parent(id)
            == a.parent(id) && b.type_of(id) == a.type_of(id) && b.name_of(id) == a.name_of(id) by {
            assert(a.entities@[id - 1].name == b.entities@[id - 1].name);
        }
    }

    /// Facts that hold of every well-formed document: no entity has the
    /// identifier `NO_PARENT`; each child is a later entity whose parent is
    /// the entity it was appended under; property keys are distinct within
    /// an entity; each property has a cell of its own.
    pub proof fn lemma_wf_facts(&self)
        requires
            self.wf(),
        ensures
            self.len() < NO_PARENT,
            !self.has_entity(NO_PARENT),
            forall|id: EntityId, j: int|
                self.has_entity(id) && 0 <= j < self.children(id).len() ==> id < #[trigger] self.children(id)[j]
                    <= self.len() && self.parent(self.children(id)[j]) == id,
            forall|id: EntityId| self.has_entity(id) ==> (#[trigger] self.keys(id)).no_duplicates(),
            forall|id1: EntityId, k1: Seq<char>, id2: EntityId, k2: Seq<char>|
                #[trigger] self.has_prop(id1, k1) && #[trigger] self.has_prop(id2, k2) && (id1 != id2 || k1 != k2)
                    ==> self.cell_of(id1, k1) != self.cell_of(id2, k2),
            forall|id: EntityId, k: Seq<char>| #[trigger] self.has_prop(id, k) ==> self.cell_of(id, k) < self.num_cells(),
    {
        assert forall|id: EntityId, j: int|
            self.has_entity(id) && 0 <= j < self.children(id).len() implies id < #[trigger] self.children(id)[j]
                <= self.len() && self.parent(self.children(id)[j]) == id by {
            assert(self.entities@[id - 1].children_ids@[j] == self.children(id)[j]);
        }
        assert forall|id1: EntityId, k1: Seq<char>, id2: EntityId, k2: Seq<char>|
            #[trigger] self.has_prop(id1, k1) && #[trigger] self.has_prop(id2, k2) && (id1 != id2 || k1 != k2)
                implies self.cell_of(id1, k1) != self.cell_of(id2, k2) by {
            let ps1 = self.entities@[id1 - 1].properties@;
            let ps2 = self.entities@[id2 - 1].properties@;
            lemma_prop_pos(ps1, k1);
            lemma_prop_pos(ps2, k2);
            let j1 = prop_pos(ps1, k1);
            let j2 = prop_pos(ps2, k2);
            assert(self.entities@[id1 - 1].properties@[j1].cell != self.entities@[id2 - 1].properties@[j2].cell);
        }
        assert forall|id: EntityId, k: Seq<char>| #[trigger] self.has_prop(id, k) implies self.cell_of(id, k)
            < self.num_cells() by {
            let ps = self.entities@[id - 1].properties@;
            lemma_prop_pos(ps, k);
            assert(self.entities@[id - 1].properties@[prop_pos(ps, k)].cell < self.cells@.len());
        }
    }

    /// The property keys of an entity.
    pub closed spec fn keys(&self, id: EntityId) -> Seq<Seq<char>> {
        self.ent(id).properties@.map_values(|p: Property| p.key@)
    }

    /// Whether entity `entity_id` has a property `name`.
    pub fn has_property(&self, entity_id: &EntityId, name: &str) -> (r: Result<bool, DocError>)
        requires
            self.wf(),
        ensures
            self.has_entity(*entity_id) ==> r == Ok::<bool, DocError>(self.has_prop(*entity_id, name@)),
            !self.has_entity(*entity_id) ==> r == Err::<bool, DocError>(DocError::NoSuchEntity),
    {
        if *entity_id == 0 || *entity_id > self.entities.len() as u64 {
            return Err(DocError::NoSuchEntity);
        }
        let key = name.to_string();
        let found = find_property(&self.entities[(*entity_id - 1) as usize].properties, &key);
        Ok(found.is_some())
    }

    /// References to every property of an entity.
    pub fn get_properties(&self, entity_id: &EntityId) -> (r: Result<Vec<PropRef>, DocError>)
        requires
            self.wf(),
        ensures
            self.has_entity(*entity_id) ==> r is Ok && views(r->Ok_0@) == pairs(*entity_id, self.keys(*entity_id)),
            !self.has_entity(*entity_id) ==> r == Err::<Vec<PropRef>, DocError>(DocError::NoSuchEntity),
    {
        if *entity_id == 0 || *entity_id > self.entities.len() as u64 {
            return Err(DocError::NoSuchEntity);
        }
        let props = &self.entities[(*entity_id - 1) as usize].properties;
        let mut out: Vec<PropRef> = Vec::new();
        let mut i: usize = 0;
        while i < props.len()
            invariant
                i <= props@.len(),
                1 <= *entity_id <= self.len(),
                *props == self.ent(*entity_id).properties,
                views(out@) == pairs(*entity_id, self.keys(*entity_id).subrange(0, i as int)),
            decreases props@.len() - i,
        {
            let pr = PropRef { entity_id: *entity_id, property_key: props[i].key.clone() };
            assert(pr@ == (*entity_id, self.keys(*entity_id)[i as int]));
            let ghost prev = out@;
            out.push(pr);
            assert(views(out@) =~= views(prev).push(pr@));
            assert(pairs(*entity_id, self.keys(*entity_id).subrange(0, i + 1)) =~= pairs(*entity_id, self.keys(*entity_id).subrange(0, i as int)).push(pr@));
            assert(views(out@) =~= pairs(*entity_id, self.keys(*entity_id).subrange(0, i + 1)));
            i = i + 1;
        }
        assert(self.keys(*entity_id).subrange(0, i as int) =~= self.keys(*entity_id));
        Ok(out)
    }

    /// Finds property `key` of entity `id`, creating it with an empty
    /// expression in a new cell where it is missing; returns its cell.
    fn get_or_create_property(&mut self, id: EntityId, key: &String) -> (r: usize)
        requires
            old(self).wf(),
            old(self).has_entity(id),
        ensures
            final(self).wf(),
            props_grow(old(self).entities@, final(self).entities@),
            has_prop_in(final(self).entities@, id, key@),
            r == prop_in(final(self).entities@, id, key@).cell,
            has_prop_in(old(self).entities@, id, key@) ==> *final(self) == *old(self),
            only_new(old(self).entities@, final(self).entities@, id, key@),
            forall|i: EntityId, k: Seq<char>| #[trigger] has_prop_in(old(self).entities@, i, k) ==> prop_in(
                final(self).entities@,
                i,
                k,
            ) == prop_in(old(self).entities@, i, k),
            !has_prop_in(old(self).entities@, id, key@) ==> r == old(self).cells@.len() && final(self).cells@[r as int]
                == Pon::Nil && prop_in(final(self).entities@, id, key@).dependants@.len() == 0,
            final(self).cells@.len() >= old(self).cells@.len(),
            forall|c: int| 0 <= c < old(self).cells@.len() ==> final(self).cells@[c] == old(self).cells@[c],
    {
        let n: usize = self.entities.len();
        assert(id - 1 < n);
        let idx: usize = (id - 1) as usize;
        match find_property(&self.entities[idx].properties, key) {
            Some(j) => {
                proof {
                    lemma_prop_pos(self.entities@[idx as int].properties@, key@);
                    lemma_grow_refl(self.entities@);
                }
                self.entities[idx].properties[j].cell
            },
            None => {
                let cell: usize = self.cells.len();
                self.cells.push(Pon::Nil);
                let mut ent = self.entities.remove(idx);
                let ghost old_props = ent.properties@;
                assert(old_props == old(self).entities@[id - 1].properties@);
                ent.properties.push(Property { key: key.clone(), cell: cell, dependants: Vec::new() });
                self.entities.insert(idx, ent);
                proof {
                    let a = old(self).entities@;
                    assert(self.entities@ == a.update(idx as int, ent));
                    assert(ent.properties@.drop_last() == old_props);
                    lemma_prop_pos(old_props, key@);
                    assert forall|k: Seq<char>| #[trigger] prop_pos(old_props, k) >= 0 implies {
                        let i = prop_pos(old_props, k);
                        &&& prop_pos(ent.properties@, k) == i
                        &&& ent.properties@[i].cell == old_props[i].cell
                        &&& is_prefix(old_props[i].dependants@, ent.properties@[i].dependants@)
                    } by {
                        lemma_prop_pos(old_props, k);
                        assert(k != key@);
                        assert(prop_pos(ent.properties@, k) == prop_pos(ent.properties@.drop_last(), k));
                        let i = prop_pos(old_props, k);
                        let d = old_props[i].dependants@;
                        assert(d.subrange(0, d.len() as int) =~= d);
                    }
                    lemma_grow_update(a, idx as int, ent);
                    assert forall|i: EntityId, k: Seq<char>| #[trigger] has_prop_in(a, i, k) implies prop_in(self.entities@, i, k) == prop_in(a, i, k) by {
                        if i == id {
                            lemma_prop_pos(old_props, k);
                            assert(k != key@);
                            assert(prop_pos(ent.properties@, k) == prop_pos(ent.properties@.drop_last(), k));
                        }
                    }
                    assert forall|i: EntityId, k: Seq<char>| #[trigger] has_prop_in(self.entities@, i, k) implies has_prop_in(a, i, k) || (i == id && k == key@) by {
                        if i == id && k != key@ {
                            assert(prop_pos(ent.properties@, k) == prop_pos(ent.properties@.drop_last(), k));
                        }
                    }
                }
                cell
            },
        }
    }

    /// Appends `d` to the dependants of property `key` of entity `id`.
    fn add_dependant(&mut self, id: EntityId, key: &String, d: PropRef)
        requires
            old(self).wf(),
            has_prop_in(old(self).entities@, id, key@),
        ensures
            final(self).wf(),
            final(self).cells == old(self).cells,
            props_grow(old(self).entities@, final(self).entities@),
            only_new(old(self).entities@, final(self).entities@, id, key@),
            forall|i: EntityId, k: Seq<char>|
                #[trigger] has_prop_in(old(self).entities@, i, k) && !(i == id && k == key@) ==> prop_in(
                    final(self).entities@,
                    i,
                    k,
                ) == prop_in(old(self).entities@, i, k),
            prop_in(final(self).entities@, id, key@).dependants@ == prop_in(
                old(self).entities@,
                id,
                key@,
            ).dependants@.push(d),
    {
        let n: usize = self.entities.len();
        assert(id - 1 < n);
        let idx: usize = (id - 1) as usize;
        let j = match find_property(&self.entities[idx].properties, key) {
            Some(j) => j,
            None => {
                proof { lemma_prop_pos(self.entities@[idx as int].properties@, key@); }
                return ;
            },
        };
        proof { lemma_prop_pos(self.entities@[idx as int].properties@, key@); }
        let mut ent = self.entities.remove(idx);
        let ghost old_props = ent.properties@;
        let mut prop = ent.properties.remove(j);
        prop.dependants.push(d);
        ent.properties.insert(j, prop);
        self.entities.insert(idx, ent);
        proof {
            let a = old(self).entities@;
            assert(self.entities@ == a.update(idx as int, ent));
            assert(ent.properties@ == old_props.update(j as int, prop));
            assert forall|k: Seq<char>| #[trigger] prop_pos(old_props, k) >= 0 implies {
                let i = prop_pos(old_props, k);
                &&& prop_pos(ent.properties@, k) == i
                &&& ent.properties@[i].cell == old_props[i].cell
                &&& is_prefix(old_props[i].dependants@, ent.properties@[i].dependants@)
            } by {
                lemma_prop_pos_keys(ent.properties@, old_props, k);
                lemma_prop_pos(old_props, k);
                let i = prop_pos(old_props, k);
                let d = old_props[i].dependants@;
                if i == j {
                    assert(prop.dependants@.subrange(0, d.len() as int) =~= d);
                } else {
                    assert(d.subrange(0, d.len() as int) =~= d);
                }
            }
            lemma_grow_update(a, idx as int, ent);
            assert forall|i: EntityId, k: Seq<char>| #[trigger] has_prop_in(self.entities@, i, k) implies has_prop_in(a, i, k) by {
                if i == id {
                    lemma_prop_pos_keys(ent.properties@, old_props, k);
                }
            }
            assert forall|i: EntityId, k: Seq<char>|
                #[trigger] has_prop_in(a, i, k) && !(i == id && k == key@) implies prop_in(self.entities@, i, k)
                == prop_in(a, i, k) by {
                if i == id {
                    lemma_prop_pos_keys(ent.properties@, old_props, k);
                    lemma_prop_pos(old_props, k);
                    lemma_prop_pos(old_props, key@);
                }
            }
        }
    }

    /// Whether every reference in `p`, seen from entity `e`, leads to an
    /// existing entity.
    pub open spec fn refs_resolve(&self, e: EntityId, p: Pon) -> bool {
        forall|k: int| 0 <= k < refs(p).len() ==> {
            let t = self.resolve(e, #[trigger] refs(p)[k].entity_path);
            t is Some && self.has_entity(t->0)
        }
    }

    /// The properties that the references in `p` lead to from entity `e`,
    /// in order.
    pub open spec fn link_targets(&self, e: EntityId, p: Pon) -> Seq<(EntityId, Seq<char>)> {
        refs(p).map_values(|n: NamedPropRef| (self.resolve(e, n.entity_path)->0, n.property_key@))
    }

    /// `r` is `p` with each unresolved reference replaced by a linked
    /// reference to the cell of the property it leads to from entity `e`.
    pub open spec fn is_linked(&self, e: EntityId, p: Pon, r: Pon) -> bool
        decreases p,
    {
        match p {
            Pon::TypedPon(b) => r is TypedPon && r->TypedPon_0.type_tag == b.type_tag && self.is_linked(
                e,
                b.data,
                r->TypedPon_0.data,
            ),
            Pon::Object(v) => r is Object && r->Object_0@.len() == v@.len() && forall|i: int|
                0 <= i < v@.len() ==> (#[trigger] r->Object_0@[i]).0 == v@[i].0 && self.is_linked(
                    e,
                    v@[i].1,
                    r->Object_0@[i].1,
                ),
            Pon::Array(v) => r is Array && r->Array_0@.len() == v@.len() && forall|i: int|
                0 <= i < v@.len() ==> self.is_linked(e, v@[i], #[trigger] r->Array_0@[i]),
            Pon::DependencyReference(n) => match self.resolve(e, n.entity_path) {
                Some(t) => self.has_prop(t, n.property_key@) && r == Pon::ResolvedDependencyReference(
                    self.cell_of(t, n.property_key@) as usize,
                ),
                None => false,
            },
            _ => r == p,
        }
    }

    proof fn lemma_linked_model(&self, e: EntityId, p: Pon, r: Pon)
        ensures
            self.is_linked(e, p, r) == linked(self.entities@, e, p, r),
        decreases p,
    {
        self.lemma_resolve_model();
        match p {
            Pon::TypedPon(b) => {
                self.lemma_linked_model(e, b.data, r->TypedPon_0.data);
            },
            Pon::Object(v) => {
                assert forall|i: int| 0 <= i < v@.len() implies self.is_linked(e, v@[i].1, r->Object_0@[i].1)
                    == linked(self.entities@, e, v@[i].1, r->Object_0@[i].1) by {
                    let w = p->Object_0;
                    assert(decreases_to!(p => w));
                    assert(decreases_to!(w => w[i]));
                    self.lemma_linked_model(e, v@[i].1, r->Object_0@[i].1);
                }
            },
            Pon::Array(v) => {
                assert forall|i: int| 0 <= i < v@.len() implies self.is_linked(e, v@[i], r->Array_0@[i]) == linked(
                    self.entities@,
                    e,
                    v@[i],
                    r->Array_0@[i],
                ) by {
                    let w = p->Array_0;
                    assert(decreases_to!(p => w));
                    assert(decreases_to!(w => w[i]));
                    self.lemma_linked_model(e, v@[i], r->Array_0@[i]);
                }
            },
            _ => {},
        }
    }

    /// The expressions held by the cells.
    pub closed spec fn cells_view(&self) -> Seq<Pon> {
        self.cells@
    }

    /// The value a read of a property gives: its stored expression expanded.
    pub open spec fn is_value(&self, id: EntityId, key: Seq<char>, r: Pon) -> bool {
        expanded(self.cells_view(), self.stored(id, key), r, self.num_cells())
    }

    /// Links `p` as seen from entity `e`.
    fn link(&self, e: EntityId, p: &Pon) -> (r: Pon)
        requires
            self.wf(),
            forall|n: NamedPropRef| #[trigger] refs(*p).contains(n) ==> target_has_prop(self.entities@, e, n),
        ensures
            linked(self.entities@, e, *p, r),
        decreases p,
    {
        proof { self.lemma_resolve_model(); }
        match p {
            Pon::TypedPon(b) => {
                let data = self.link(e, &b.data);
                Pon::TypedPon(Box::new(TypedPon { type_tag: b.type_tag.clone(), data: data }))
            },
            Pon::Object(v) => {
                let mut w: Vec<(String, Pon)> = Vec::new();
                let mut i: usize = 0;
                while i < v.len()
                    invariant
                        self.wf(),
                        i <= v.len(),
                        *p == Pon::Object(*v),
                        forall|n: NamedPropRef| #[trigger] refs(*p).contains(n) ==> target_has_prop(self.entities@, e, n),
                        w@.len() == i,
                        forall|j: int| 0 <= j < i ==> (#[trigger] w@[j]).0 == v@[j].0 && linked(
                            self.entities@,
                            e,
                            v@[j].1,
                            w@[j].1,
                        ),
                    decreases v.len() - i,
                {
                    proof {
                        let pv: Pon = *p;
                        let s = pv->Object_0;
                        assert(decreases_to!(pv => s));
                        assert(decreases_to!(s => s[i as int]));
                        assert forall|n: NamedPropRef| #[trigger] refs(v@[i as int].1).contains(n) implies target_has_prop(self.entities@, e, n) by {
                            crate::pon::lemma_refs_fields_contains(v@, i as int, n);
                            assert(refs(*p) == crate::pon::refs_fields(v@));
                        }
                    }
                    let x = self.link(e, &v[i].1);
                    w.push((v[i].0.clone(), x));
                    i = i + 1;
                }
                Pon::Object(w)
            },
            Pon::Array(v) => {
                let mut w: Vec<Pon> = Vec::new();
                let mut i: usize = 0;
                while i < v.len()
                    invariant
                        self.wf(),
                        i <= v.len(),
                        *p == Pon::Array(*v),
                        forall|n: NamedPropRef| #[trigger] refs(*p).contains(n) ==> target_has_prop(self.entities@, e, n),
                        w@.len() == i,
                        forall|j: int| 0 <= j < i ==> linked(self.entities@, e, v@[j], #[trigger] w@[j]),
                    decreases v.len() - i,
                {
                    proof {
                        let pv: Pon = *p;
                        let s = pv->Array_0;
                        assert(decreases_to!(pv => s));
                        assert(decreases_to!(s => s[i as int]));
                        assert forall|n: NamedPropRef| #[trigger] refs(v@[i as int]).contains(n) implies target_has_prop(self.entities@, e, n) by {
                            crate::pon::lemma_refs_list_contains(v@, i as int, n);
                            assert(refs(*p) == crate::pon::refs_list(v@));
                        }
                    }
                    let x = self.link(e, &v[i]);
                    w.push(x);
                    i = i + 1;
                }
                Pon::Array(w)
            },
            Pon::DependencyReference(n) => {
                assert(refs(*p)[0] == *n);
                assert(refs(*p).contains(*n));
                assert(target_has_prop(self.entities@, e, *n));
                match self.resolve_entity_path(&e, &n.entity_path) {
                    Ok(t) => {
                        let len: usize = self.entities.len();
                        assert(1 <= t <= len);
                        let idx: usize = (t - 1) as usize;
                        match find_property(&self.entities[idx].properties, &n.property_key) {
                            Some(j) => {
                                proof { lemma_prop_pos(self.entities@[idx as int].properties@, n.property_key@); }
                                Pon::ResolvedDependencyReference(self.entities[idx].properties[j].cell)
                            },
                            None => Pon::Nil,
                        }
                    },
                    Err(_) => Pon::Nil,
                }
            },
            _ => copy_leaf(p),
        }
    }

    /// Expands the linked references in `p` to a nesting depth of `fuel`.
    fn expand(&self, p: &Pon, fuel: usize) -> (r: Pon)
        requires
            self.wf(),
        ensures
            expanded(self.cells@, *p, r, fuel as nat),
        decreases fuel, p,
    {
        match p {
            Pon::ResolvedDependencyReference(c) => {
                if fuel > 0 && *c < self.cells.len() {
                    self.expand(&self.cells[*c], fuel - 1)
                } else {
                    Pon::ResolvedDependencyReference(*c)
                }
            },
            Pon::TypedPon(b) => {
                let data = self.expand(&b.data, fuel);
                Pon::TypedPon(Box::new(TypedPon { type_tag: b.type_tag.clone(), data: data }))
            },
            Pon::Object(v) => {
                let mut w: Vec<(String, Pon)> = Vec::new();
                let mut i: usize = 0;
                while i < v.len()
                    invariant
                        self.wf(),
                        i <= v.len(),
                        *p == Pon::Object(*v),
                        w@.len() == i,
                        forall|j: int| 0 <= j < i ==> (#[trigger] w@[j]).0 == v@[j].0 && expanded(
                            self.cells@,
                            v@[j].1,
                            w@[j].1,
                            fuel as nat,
                        ),
                    decreases v.len() - i,
                {
                    proof {
                        let pv: Pon = *p;
                        let s = pv->Object_0;
                        assert(decreases_to!(pv => s));
                        assert(decreases_to!(s => s[i as int]));
                    }
                    let x = self.expand(&v[i].1, fuel);
                    w.push((v[i].0.clone(), x));
                    i = i + 1;
                }
                Pon::Object(w)
            },
            Pon::Array(v) => {
                let mut w: Vec<Pon> = Vec::new();
                let mut i: usize = 0;
                while i < v.len()
                    invariant
                        self.wf(),
                        i <= v.len(),
                        *p == Pon::Array(*v),
                        w@.len() == i,
                        forall|j: int| 0 <= j < i ==> expanded(self.cells@, v@[j], #[trigger] w@[j], fuel as nat),
                    decreases v.len() - i,
                {
                    proof {
                        let pv: Pon = *p;
                        let s = pv->Array_0;
                        assert(decreases_to!(pv => s));
                        assert(decreases_to!(s => s[i as int]));
                    }
                    let x = self.expand(&v[i], fuel);
                    w.push(x);
                    i = i + 1;
                }
                Pon::Array(w)
            },
            _ => copy_leaf(p),
        }
    }

    /// Reads a property: its expression with each linked reference replaced
    /// by the current value of the referenced property.
    pub fn get_property_value(&self, entity_id: &EntityId, name: &str) -> (r: Result<Pon, DocError>)
        requires
            self.wf(),
        ensures
            !self.has_entity(*entity_id) ==> r == Err::<Pon, DocError>(DocError::NoSuchEntity),
            self.has_entity(*entity_id) && !self.has_prop(*entity_id, name@) ==> r is Err && r->Err_0 is NoSuchProperty
                && r->Err_0->NoSuchProperty_0@ == name@,
            self.has_prop(*entity_id, name@) ==> r is Ok && self.is_value(*entity_id, name@, r->Ok_0),
    {
        if *entity_id == 0 || *entity_id > self.entities.len() as u64 {
            return Err(DocError::NoSuchEntity);
        }
        let key = name.to_string();
        let idx: usize = (*entity_id - 1) as usize;
        match find_property(&self.entities[idx].properties, &key) {
            Some(j) => {
                proof { lemma_prop_pos(self.entities@[idx as int].properties@, key@); }
                let c = self.entities[idx].properties[j].cell;
                Ok(self.expand(&self.cells[c], self.cells.len()))
            },
            None => Err(DocError::NoSuchProperty(key)),
        }
    }

    /// The properties invalidated by a change of property `key` of entity
    /// `e`, following chains of dependants at most `fuel` deep.
    pub open spec fn cascade(&self, e: EntityId, key: Seq<char>, fuel: nat) -> Option<
        Seq<(EntityId, Seq<char>)>,
    >
        decreases fuel, 0nat, 0nat,
    {
        if !self.has_prop(e, key) || fuel == 0 {
            None
        } else {
            match self.cascade_deps(self.dependants(e, key), (fuel - 1) as nat) {
                Some(s) => Some(seq![(e, key)] + s),
                None => None,
            }
        }
    }

    /// The cascades of `deps`, one after another.
    pub open spec fn cascade_deps(&self, deps: Seq<(EntityId, Seq<char>)>, fuel: nat) -> Option<
        Seq<(EntityId, Seq<char>)>,
    >
        decreases fuel, 1nat, deps.len(),
    {
        if deps.len() == 0 {
            Some(Seq::empty())
        } else {
            match self.cascade_deps(deps.drop_last(), fuel) {
                Some(a) => match self.cascade(deps.last().0, deps.last().1, fuel) {
                    Some(b) => Some(a + b),
                    None => None,
                },
                None => None,
            }
        }
    }

    proof fn lemma_cascade_model(&self, e: EntityId, key: Seq<char>, fuel: nat)
        ensures
            self.cascade(e, key, fuel) == cascade_in(self.entities@, e, key, fuel),
        decreases fuel, 0nat, 0nat,
    {
        if self.has_prop(e, key) && fuel > 0 {
            self.lemma_cascade_deps_model(prop_in(self.entities@, e, key).dependants@, (fuel - 1) as nat);
        }
    }

    proof fn lemma_cascade_deps_model(&self, ds: Seq<PropRef>, fuel: nat)
        ensures
            self.cascade_deps(views(ds), fuel) == cascade_list(self.entities@, ds, fuel),
        decreases fuel, 1nat, ds.len(),
    {
        if ds.len() > 0 {
            assert(views(ds).drop_last() =~= views(ds.drop_last()));
            self.lemma_cascade_deps_model(ds.drop_last(), fuel);
            self.lemma_cascade_model(ds.last().entity_id, ds.last().property_key@, fuel);
        }
    }

    /// Builds the cascade of property `key` of entity `e`.
    fn cascade_from(&self, e: EntityId, key: &String, fuel: usize) -> (r: Result<Vec<PropRef>, DocError>)
        requires
            self.wf(),
        ensures
            match cascade_in(self.entities@, e, key@, fuel as nat) {
                Some(s) => r is Ok && views(r->Ok_0@) == s,
                None => r is Err,
            },
            !has_prop_in(self.entities@, e, key@) ==> r is Err && r->Err_0 is NoSuchProperty
                && r->Err_0->NoSuchProperty_0@ == key@,
            has_prop_in(self.entities@, e, key@) && fuel == 0 ==> r == Err::<Vec<PropRef>, DocError>(
                DocError::DependencyCycle,
            ),
        decreases fuel,
    {
        if e == 0 || e > self.entities.len() as u64 {
            return Err(DocError::NoSuchProperty(key.clone()));
        }
        let idx: usize = (e - 1) as usize;
        let j = match find_property(&self.entities[idx].properties, key) {
            Some(j) => j,
            None => {
                return Err(DocError::NoSuchProperty(key.clone()));
            },
        };
        proof { lemma_prop_pos(self.entities@[idx as int].properties@, key@); }
        if fuel == 0 {
            return Err(DocError::DependencyCycle);
        }
        let deps = &self.entities[idx].properties[j].dependants;
        let ghost ents = self.entities@;
        let ghost f = (fuel - 1) as nat;
        let mut out: Vec<PropRef> = Vec::new();
        out.push(PropRef { entity_id: e, property_key: key.clone() });
        let mut i: usize = 0;
        assert(deps@.subrange(0, 0) == Seq::<PropRef>::empty());
        assert(views(out@) =~= seq![(e, key@)] + Seq::<(EntityId, Seq<char>)>::empty());
        while i < deps.len()
            invariant
                self.wf(),
                ents == self.entities@,
                f == fuel - 1,
                fuel > 0,
                has_prop_in(ents, e, key@),
                i <= deps@.len(),
                *deps == prop_in(ents, e, key@).dependants,
                cascade_list(ents, deps@.subrange(0, i as int), f) is Some,
                views(out@) == seq![(e, key@)] + cascade_list(ents, deps@.subrange(0, i as int), f)->0,
            decreases deps@.len() - i,
        {
            let d = &deps[i];
            assert(deps@.subrange(0, i + 1).drop_last() == deps@.subrange(0, i as int));
            assert(deps@.subrange(0, i + 1).last() == *d);
            match self.cascade_from(d.entity_id, &d.property_key, fuel - 1) {
                Ok(sub) => {
                    let mut sub = sub;
                    let ghost prev = out@;
                    let ghost sv = sub@;
                    out.append(&mut sub);
                    assert(views(out@) =~= views(prev) + views(sv));
                },
                Err(err) => {
                    proof { lemma_cascade_prefix_none(ents, deps@, i + 1, f); }
                    return Err(err);
                },
            }
            i = i + 1;
        }
        assert(deps@.subrange(0, i as int) == deps@);
        Ok(out)
    }

    /// Sets property `name` of entity `entity_id` to `expression`: links the
    /// references in it (creating empty properties where their targets are
    /// missing, and recording this property as their dependant), stores the
    /// linked expression, and returns every property the change invalidates.
    pub fn set_property(&mut self, entity_id: &EntityId, name: &str, expression: Pon) -> (r: Result<
        Vec<PropRef>,
        DocError,
    >)
        requires
            old(self).wf(),
        ensures
            final(self).wf(),
            !old(self).has_entity(*entity_id) ==> r == Err::<Vec<PropRef>, DocError>(DocError::NoSuchEntity)
                && *final(self) == *old(self),
            old(self).has_entity(*entity_id) && !old(self).refs_resolve(*entity_id, expression) ==> r == Err::<
                Vec<PropRef>,
                DocError,
            >(DocError::BadReference) && *final(self) == *old(self),
            old(self).has_entity(*entity_id) && old(self).refs_resolve(*entity_id, expression) ==> {
                &&& final(self).keeps_tree_of(*old(self))
                &&& forall|id: EntityId, k: Seq<char>| #[trigger] old(self).has_prop(id, k) ==> {
                    &&& final(self).has_prop(id, k)
                    &&& final(self).cell_of(id, k) == old(self).cell_of(id, k)
                    &&& old(self).dependants(id, k).len() <= final(self).dependants(id, k).len()
                    &&& final(self).dependants(id, k).subrange(0, old(self).dependants(id, k).len() as int)
                        == old(self).dependants(id, k)
                    &&& (id != *entity_id || k != name@) ==> final(self).stored(id, k) == old(self).stored(id, k)
                }
                &&& forall|id: EntityId, k: Seq<char>|
                    #[trigger] final(self).has_prop(id, k) && !old(self).has_prop(id, k) && (id != *entity_id || k
                        != name@) ==> final(self).stored(id, k) == Pon::Nil
                &&& forall|id: EntityId, k: Seq<char>|
                    #[trigger] final(self).has_prop(id, k) && !old(self).has_prop(id, k) ==> (id == *entity_id && k
                        == name@) || hits(old(self).link_targets(*entity_id, expression), (id, k)) > 0
                &&& forall|id: EntityId, k: Seq<char>| #[trigger] final(self).has_prop(id, k) ==> final(self).dependants(
                    id,
                    k,
                ) == (if old(self).has_prop(id, k) {
                    old(self).dependants(id, k)
                } else {
                    Seq::empty()
                }) + copies((*entity_id, name@), hits(old(self).link_targets(*entity_id, expression), (id, k)))
                &&& final(self).has_prop(*entity_id, name@)
                &&& forall|k: int| 0 <= k < refs(expression).len() ==> {
                    let n = #[trigger] refs(expression)[k];
                    let t = old(self).resolve(*entity_id, n.entity_path)->0;
                    &&& final(self).resolve(*entity_id, n.entity_path) == Some(t)
                    &&& final(self).has_prop(t, n.property_key@)
                    &&& final(self).dependants(t, n.property_key@).contains((*entity_id, name@))
                }
                &&& final(self).is_linked(*entity_id, expression, final(self).stored(*entity_id, name@))
                &&& match final(self).cascade(*entity_id, name@, final(self).num_cells()) {
                    Some(s) => r is Ok && views(r->Ok_0@) == s,
                    None => r is Err,
                }
            },
    {
        let e = *entity_id;
        if e == 0 || e > self.entities.len() as u64 {
            return Err(DocError::NoSuchEntity);
        }
        proof { self.lemma_resolve_model(); }
        let key = name.to_string();
        let mut named: Vec<&NamedPropRef> = Vec::new();
        expression.get_dependency_references(&mut named);
        assert(deref_all(named@) =~= deref_all(Seq::empty()) + refs(expression));
        let ghost rs = refs(expression);
        let mut targets: Vec<PropRef> = Vec::new();
        let mut k: usize = 0;
        while k < named.len()
            invariant
                self.wf(),
                *self == *old(self),
                e == *entity_id,
                1 <= e <= self.len(),
                rs == refs(expression),
                deref_all(named@) == rs,
                k <= named@.len(),
                targets@.len() == k,
                forall|j: int| 0 <= j < k ==> {
                    let t = self.resolve(e, #[trigger] rs[j].entity_path);
                    &&& t == Some(targets@[j].entity_id)
                    &&& self.has_entity(targets@[j].entity_id)
                    &&& targets@[j].property_key@ == rs[j].property_key@
                },
            decreases named@.len() - k,
        {
            let n: &NamedPropRef = named[k];
            assert(*n == rs[k as int]);
            match self.resolve_entity_path(&e, &n.entity_path) {
                Ok(t) => {
                    if t == 0 || t > self.entities.len() as u64 {
                        assert(refs(expression)[k as int].entity_path == n.entity_path);
                        return Err(DocError::BadReference);
                    }
                    targets.push(PropRef { entity_id: t, property_key: n.property_key.clone() });
                },
                Err(_) => {
                    assert(refs(expression)[k as int].entity_path == n.entity_path);
                    return Err(DocError::BadReference);
                },
            }
            k = k + 1;
        }
        let ghost ents0 = self.entities@;
        let ghost tvs = views(targets@);
        let ghost x = (e, name@);
        proof {
            lemma_grow_refl(ents0);
            assert(old(self).link_targets(e, expression) =~= tvs);
            assert(tvs.subrange(0, 0) =~= Seq::<(EntityId, Seq<char>)>::empty());
            assert forall|i: EntityId, kk: Seq<char>| #[trigger] has_prop_in(ents0, i, kk) implies views(prop_in(ents0, i, kk).dependants@)
                == views(prop_in(ents0, i, kk).dependants@) + copies(x, hits(tvs.subrange(0, 0), (i, kk))) by {
                assert(copies(x, 0) =~= Seq::<(EntityId, Seq<char>)>::empty());
                assert(views(prop_in(ents0, i, kk).dependants@) + copies(x, 0) =~= views(prop_in(ents0, i, kk).dependants@));
            }
        }
        let mut k: usize = 0;
        while k < targets.len()
            invariant
                self.wf(),
                e == *entity_id,
                1 <= e <= self.len(),
                rs == refs(expression),
                targets@.len() == rs.len(),
                ents0 == old(self).entities@,
                props_grow(ents0, self.entities@),
                k <= targets@.len(),
                forall|j: int| 0 <= j < targets@.len() ==> {
                    let t = resolve_in(ents0, e, #[trigger] rs[j].entity_path);
                    &&& t == Some(targets@[j].entity_id)
                    &&& 1 <= targets@[j].entity_id <= ents0.len()
                    &&& targets@[j].property_key@ == rs[j].property_key@
                },
                forall|j: int| 0 <= j < k ==> has_prop_in(
                    self.entities@,
                    #[trigger] targets@[j].entity_id,
                    targets@[j].property_key@,
                ),
                forall|j: int| 0 <= j < k ==> views(
                    prop_in(self.entities@, #[trigger] targets@[j].entity_id, targets@[j].property_key@).dependants@,
                ).contains((e, name@)),
                key@ == name@,
                old(self).cells@.len() <= self.cells@.len(),
                forall|c: int| 0 <= c < old(self).cells@.len() ==> self.cells@[c] == old(self).cells@[c],
                forall|i: EntityId, kk: Seq<char>|
                    #[trigger] has_prop_in(self.entities@, i, kk) && !has_prop_in(ents0, i, kk) ==> self.cells@[prop_in(
                        self.entities@,
                        i,
                        kk,
                    ).cell as int] == Pon::Nil,
                tvs == views(targets@),
                x == (e, name@),
                forall|i: EntityId, kk: Seq<char>|
                    #[trigger] has_prop_in(self.entities@, i, kk) && !has_prop_in(ents0, i, kk) ==> hits(
                        tvs.subrange(0, k as int),
                        (i, kk),
                    ) > 0,
                forall|i: EntityId, kk: Seq<char>| #[trigger] has_prop_in(self.entities@, i, kk) ==> views(
                    prop_in(self.entities@, i, kk).dependants@,
                ) == (if has_prop_in(ents0, i, kk) {
                    views(prop_in(ents0, i, kk).dependants@)
                } else {
                    Seq::empty()
                }) + copies(x, hits(tvs.subrange(0, k as int), (i, kk))),
            decreases targets@.len() - k,
        {
            let ghost before = self.entities@;
            let ghost dbefore = *self;
            let t = &targets[k];
            assert(resolve_in(ents0, e, rs[k as int].entity_path) == Some(t.entity_id));
            assert(1 <= t.entity_id <= ents0.len());
            let r0 = self.get_or_create_property(t.entity_id, &t.property_key);
            let ghost mid = self.entities@;
            let ghost midcells = self.cells@;
            self.add_dependant(t.entity_id, &t.property_key, PropRef { entity_id: e, property_key: key.clone() });
            proof {
                assert forall|i: EntityId, kk: Seq<char>|
                    #[trigger] has_prop_in(self.entities@, i, kk) && !has_prop_in(ents0, i, kk) implies self.cells@[prop_in(
                        self.entities@,
                        i,
                        kk,
                    ).cell as int] == Pon::Nil by {
                    assert(has_prop_in(mid, i, kk));
                    if has_prop_in(before, i, kk) {
                        dbefore.lemma_cell_bound(i, kk);
                    } else {
                        assert(i == t.entity_id && kk == t.property_key@);
                    }
                }
                let tv = (t.entity_id, t.property_key@);
                assert(tvs[k as int] == tv);
                assert(tvs.subrange(0, k + 1).drop_last() =~= tvs.subrange(0, k as int));
                assert forall|i: EntityId, kk: Seq<char>| #[trigger] has_prop_in(self.entities@, i, kk) implies views(
                    prop_in(self.entities@, i, kk).dependants@,
                ) == (if has_prop_in(ents0, i, kk) {
                    views(prop_in(ents0, i, kk).dependants@)
                } else {
                    Seq::empty()
                }) + copies(x, hits(tvs.subrange(0, k + 1), (i, kk))) by {
                    let base = if has_prop_in(ents0, i, kk) {
                        views(prop_in(ents0, i, kk).dependants@)
                    } else {
                        Seq::empty()
                    };
                    let h = hits(tvs.subrange(0, k as int), (i, kk));
                    assert(has_prop_in(mid, i, kk));
                    if i == t.entity_id && kk == t.property_key@ {
                        let dm = prop_in(mid, i, kk).dependants@;
                        assert(hits(tvs.subrange(0, k + 1), (i, kk)) == h + 1);
                        if has_prop_in(before, i, kk) {
                            assert(views(dm) == base + copies(x, h));
                        } else {
                            if h > 0 {
                                lemma_hits_pos(tvs.subrange(0, k as int), (i, kk));
                                let j = choose|j: int| 0 <= j < k && tvs.subrange(0, k as int)[j] == (i, kk);
                                assert(tvs[j] == (targets@[j].entity_id, targets@[j].property_key@));
                                assert(has_prop_in(before, targets@[j].entity_id, targets@[j].property_key@));
                            }
                            assert(!has_prop_in(ents0, i, kk));
                            assert(dm.len() == 0);
                            assert(views(dm) =~= base + copies(x, h));
                        }
                        assert(views(dm.push(PropRef { entity_id: e, property_key: key })) =~= views(dm).push(x));
                        assert(base + copies(x, h + 1) =~= (base + copies(x, h)).push(x));
                    } else {
                        assert(has_prop_in(before, i, kk));
                        assert(hits(tvs.subrange(0, k + 1), (i, kk)) == h);
                    }
                }
                assert forall|i: EntityId, kk: Seq<char>|
                    #[trigger] has_prop_in(self.entities@, i, kk) && !has_prop_in(ents0, i, kk) implies hits(
                        tvs.subrange(0, k + 1),
                        (i, kk),
                    ) > 0 by {
                    assert(has_prop_in(mid, i, kk));
                    if !(i == t.entity_id && kk == t.property_key@) {
                        assert(has_prop_in(before, i, kk));
                    }
                }
                lemma_grow_trans(before, mid, self.entities@);
                lemma_grow_trans(ents0, before, self.entities@);
                assert forall|j: int| 0 <= j < k + 1 implies has_prop_in(
                    self.entities@,
                    #[trigger] targets@[j].entity_id,
                    targets@[j].property_key@,
                ) by {
                    if j < k {
                        assert(has_prop_in(before, targets@[j].entity_id, targets@[j].property_key@));
                    }
                }
                let d = PropRef { entity_id: e, property_key: key };
                let tk = targets@[k as int];
                let dk = prop_in(self.entities@, tk.entity_id, tk.property_key@).dependants@;
                assert(views(dk)[dk.len() - 1] == (e, name@));
                assert forall|j: int| 0 <= j < k + 1 implies views(
                    prop_in(self.entities@, #[trigger] targets@[j].entity_id, targets@[j].property_key@).dependants@,
                ).contains((e, name@)) by {
                    if j < k {
                        lemma_grow_keeps_dependant(before, self.entities@, targets@[j].entity_id, targets@[j].property_key@, (e, name@));
                    }
                }
            }
            k = k + 1;
        }
        let ghost ents1 = self.entities@;
        let ghost d1 = *self;
        let cell = self.get_or_create_property(e, &key);
        let ghost d2 = *self;
        proof {
            lemma_grow_trans(ents0, ents1, self.entities@);
            assert forall|j: int| 0 <= j < rs.len() implies views(
                prop_in(self.entities@, #[trigger] targets@[j].entity_id, targets@[j].property_key@).dependants@,
            ).contains((e, name@)) by {
                lemma_grow_keeps_dependant(ents1, self.entities@, targets@[j].entity_id, targets@[j].property_key@, (e, name@));
            }
            assert forall|j: int| 0 <= j < rs.len() implies #[trigger] resolve_in(self.entities@, e, rs[j].entity_path) == Some(targets@[j].entity_id) by {
                lemma_resolve_frame(ents0, self.entities@, e, rs[j].entity_path);
            }
            assert forall|n: NamedPropRef| #[trigger] refs(expression).contains(n) implies target_has_prop(
                self.entities@,
                e,
                n,
            ) by {
                let j = choose|j: int| 0 <= j < rs.len() && rs[j] == n;
                lemma_resolve_frame(ents0, self.entities@, e, n.entity_path);
                assert(has_prop_in(ents1, targets@[j].entity_id, targets@[j].property_key@));
            }
        }
        proof {
            lemma_prop_pos(self.entities@[e - 1].properties@, key@);
            let pp = prop_pos(self.entities@[e - 1].properties@, key@);
            assert(self.entities@[e - 1].properties@[pp].cell < self.cells@.len());
        }
        let resolved = self.link(e, &expression);
        self.cells.set(cell, resolved);
        proof {
            self.lemma_resolve_model();
            self.lemma_linked_model(e, expression, resolved);
            self.lemma_cascade_model(e, name@, self.cells@.len() as nat);
            Self::lemma_keeps_tree(*old(self), *self);
            self.lemma_wf_facts();
            assert(tvs.subrange(0, tvs.len() as int) =~= tvs);
            assert forall|id: EntityId, k: Seq<char>| #[trigger] self.has_prop(id, k) implies self.dependants(id, k) == (if old(
                self,
            ).has_prop(id, k) {
                old(self).dependants(id, k)
            } else {
                Seq::empty()
            }) + copies((e, name@), hits(old(self).link_targets(e, expression), (id, k))) by {
                if has_prop_in(ents1, id, k) {
                    assert(prop_in(self.entities@, id, k) == prop_in(ents1, id, k));
                } else {
                    assert(id == e && k == name@);
                    if hits(tvs, (id, k)) > 0 {
                        lemma_hits_pos(tvs, (id, k));
                        let j = choose|j: int| 0 <= j < tvs.len() && tvs[j] == (id, k);
                        assert(tvs[j] == (targets@[j].entity_id, targets@[j].property_key@));
                        assert(has_prop_in(ents1, targets@[j].entity_id, targets@[j].property_key@));
                    }
                    assert(!has_prop_in(ents0, id, k));
                    assert(self.dependants(id, k) =~= Seq::<(EntityId, Seq<char>)>::empty() + copies((e, name@), 0));
                }
            }
            assert(self.cell_of(e, name@) == cell);
            assert forall|id: EntityId, k: Seq<char>| #[trigger] old(self).has_prop(id, k) implies {
                &&& self.has_prop(id, k)
                &&& self.cell_of(id, k) == old(self).cell_of(id, k)
                &&& old(self).dependants(id, k).len() <= self.dependants(id, k).len()
                &&& self.dependants(id, k).subrange(0, old(self).dependants(id, k).len() as int) == old(self).dependants(id, k)
                &&& (id != *entity_id || k != name@) ==> self.stored(id, k) == old(self).stored(id, k)
            } by {
                let da = prop_in(ents0, id, k).dependants@;
                let db = prop_in(self.entities@, id, k).dependants@;
                assert(views(db).subrange(0, da.len() as int) =~= views(db.subrange(0, da.len() as int)));
                old(self).lemma_cell_bound(id, k);
                let c = prop_in(ents0, id, k).cell as int;
                assert(has_prop_in(self.entities@, id, k));
                assert(prop_in(self.entities@, id, k).cell == c);
                assert(d1.cells@[c] == old(self).cells@[c]);
                assert(d2.cells@[c] == d1.cells@[c]);
                if id != *entity_id || k != name@ {
                    assert(self.has_prop(id, k));
                    assert(self.has_prop(e, name@));
                    assert(self.cell_of(id, k) != self.cell_of(e, name@));
                    assert(self.cells@[c] == d2.cells@[c]);
                }
            }
            assert forall|id: EntityId, k: Seq<char>|
                #[trigger] self.has_prop(id, k) && !old(self).has_prop(id, k) && (id != *entity_id || k != name@)
                implies self.stored(id, k) == Pon::Nil by {
                assert(has_prop_in(ents1, id, k));
                d1.lemma_cell_bound(id, k);
                let c = prop_in(ents1, id, k).cell as int;
                assert(!has_prop_in(ents0, id, k));
                assert(d1.cells@[c] == Pon::Nil);
                assert(prop_in(self.entities@, id, k).cell == c);
                assert(d2.cells@[c] == d1.cells@[c]);
                assert(self.has_prop(e, name@));
                assert(self.cell_of(id, k) != self.cell_of(e, name@));
                assert(self.cells@[c] == d2.cells@[c]);
            }
        }
        let fuel: usize = self.cells.len();
        self.cascade_from(e, &key, fuel)
    }

    /// Resolves the entity path of `named_prop_ref` from `start_entity_id`
    /// and pairs the entity with the property key.
    pub fn resolve_named_prop_ref(&self, start_entity_id: &EntityId, named_prop_ref: &NamedPropRef) -> (r:
        Result<PropRef, DocError>)
        requires
            self.wf(),
        ensures
            match self.resolve(*start_entity_id, named_prop_ref.entity_path) {
                Some(t) => r is Ok && r->Ok_0@ == (t, named_prop_ref.property_key@),
                None => r == Err::<PropRef, DocError>(DocError::BadReference),
            },
    {
        let owner = self.resolve_entity_path(start_entity_id, &named_prop_ref.entity_path)?;
        Ok(PropRef { entity_id: owner, property_key: named_prop_ref.property_key.clone() })
    }

    /// The identifiers of all entities, oldest first.
    pub fn iter(&self) -> (r: Vec<EntityId>)
        requires
            self.wf(),
        ensures
            r@.len() == self.len(),
            forall|i: int| 0 <= i < r@.len() ==> r@[i] == i + 1,
    {
        let mut out: Vec<EntityId> = Vec::new();
        let mut i: usize = 0;
        while i < self.entities.len()
            invariant
                self.wf(),
                i <= self.entities@.len(),
                out@.len() == i,
                forall|j: int| 0 <= j < i ==> out@[j] == j + 1,
            decreases self.entities@.len() - i,
        {
            out.push(i as u64 + 1);
            i = i + 1;
        }
        out
    }

    /// Opens a markup element that describes an entity: appends the entity
    /// under the innermost open one (at the top level where none is open),
    /// sets its properties in order, and makes it the innermost open entity.
    /// A property whose value fails to link is left unset, as `set_property`
    /// leaves it.
    pub fn open_element(
        &mut self,
        stack: &mut Vec<EntityId>,
        type_tag: String,
        name: Option<String>,
        properties: Vec<(String, Pon)>,
    ) -> (r: EntityId)
        requires
            old(self).wf(),
            old(self).len() + 1 < NO_PARENT,
            forall|i: int| 0 <= i < old(stack)@.len() ==> old(self).has_entity(#[trigger] old(stack)@[i]),
        ensures
            final(self).wf(),
            r == old(self).len() + 1,
            final(self).len() == old(self).len() + 1,
            final(stack)@ == old(stack)@.push(r),
            final(self).parent(r) == if old(stack)@.len() == 0 {
                NO_PARENT
            } else {
                old(stack)@.last()
            },
            final(self).type_of(r) == type_tag@,
            final(self).name_of(r) == match name {
                Some(n) => Some(n@),
                None => None::<Seq<char>>,
            },
            name is Some ==> final(self).named(name->0@) == Some(r),
            forall|j: int|
                0 <= j < properties@.len() && refs(properties@[j].1).len() == 0 ==> final(self).has_prop(
                    r,
                    #[trigger] properties@[j].0@,
                ),
            forall|i: int| 0 <= i < final(stack)@.len() ==> final(self).has_entity(#[trigger] final(stack)@[i]),
    {
        let parent: EntityId = if stack.len() == 0 {
            NO_PARENT
        } else {
            stack[stack.len() - 1]
        };
        let ghost nv = name_view(name);
        let id = self.append_entity(parent, type_tag, name).unwrap();
        let ghost appended = *self;
        let ghost orig = properties@;
        let mut props = properties;
        let mut i: usize = 0;
        let n: usize = props.len();
        while i < n
            invariant
                self.wf(),
                self.keeps_tree_of(appended),
                appended.len() == old(self).len() + 1,
                appended.parent(id) == parent,
                appended.type_of(id) == type_tag@,
                appended.name_of(id) == nv,
                nv is Some ==> appended.named(nv->0) == Some(id),
                id == appended.len(),
                orig.len() == n,
                props@ == orig.subrange(i as int, n as int),
                i <= n,
                forall|j: int|
                    0 <= j < i && refs(orig[j].1).len() == 0 ==> self.has_prop(id, #[trigger] orig[j].0@),
            decreases n - i,
        {
            assert(props@[0] == orig[i as int]);
            let (key, value) = props.remove(0);
            let _ = self.set_property(&id, key.as_str(), value);
            assert(props@ =~= orig.subrange(i + 1, n as int));
            i = i + 1;
        }
        stack.push(id);
        id
    }

    /// Closes the innermost open element.
    pub fn close_element(stack: &mut Vec<EntityId>)
        ensures
            old(stack)@.len() == 0 ==> final(stack)@ == old(stack)@,
            old(stack)@.len() > 0 ==> final(stack)@ == old(stack)@.drop_last(),
    {
        stack.pop();
    }

    /// The number of entities.
    pub fn entity_count(&self) -> (r: usize)
        ensures
            r == self.len(),
    {
        self.entities.len()
    }

    /// The pre-order walk of the subtree at `id`: enter it, walk each child's
    /// subtree in append order, leave it.
    pub open spec fn walk(&self, id: EntityId) -> Seq<WalkStep>
        decreases self.len() + 1 - id, 1nat, 0nat,
    {
        if !self.has_entity(id) {
            Seq::empty()
        } else {
            seq![WalkStep::Enter(id)] + self.walk_kids(id, 0) + seq![WalkStep::Leave(id)]
        }
    }

    /// The walks of the children of `id` from the `i`-th on.
    pub open spec fn walk_kids(&self, id: EntityId, i: int) -> Seq<WalkStep>
        decreases self.len() + 1 - id, 0nat, self.children(id).len() - i,
        when 0 <= i && self.has_entity(id)
    {
        if i >= self.children(id).len() {
            Seq::empty()
        } else {
            let c = self.children(id)[i];
            let first = if id < c <= self.len() {
                self.walk(c)
            } else {
                Seq::empty()
            };
            first + self.walk_kids(id, i + 1)
        }
    }

    /// Walks the subtree at `entity_id` in pre-order, children in append
    /// order, as the markup form of the document lays it out.
    pub fn walk_from(&self, entity_id: &EntityId) -> (r: Vec<WalkStep>)
        requires
            self.wf(),
        ensures
            r@ == self.walk(*entity_id),
        decreases self.len() + 1 - *entity_id,
    {
        let id = *entity_id;
        let mut out: Vec<WalkStep> = Vec::new();
        if id == 0 || id > self.entities.len() as u64 {
            return out;
        }
        let e = &self.entities[(id - 1) as usize];
        out.push(WalkStep::Enter(id));
        let mut i: usize = 0;
        assert(out@ + self.walk_kids(id, 0) == seq![WalkStep::Enter(id)] + self.walk_kids(id, 0));
        while i < e.children_ids.len()
            invariant
                self.wf(),
                id == *entity_id,
                1 <= id <= self.len(),
                *e == self.entities@[id - 1],
                i <= e.children_ids@.len(),
                out@ + self.walk_kids(id, i as int) == seq![WalkStep::Enter(id)] + self.walk_kids(id, 0),
            decreases e.children_ids@.len() - i,
        {
            let c = e.children_ids[i];
            assert(self.children(id)[i as int] == c);
            let sub = self.walk_from(&c);
            let ghost prev = out@;
            let mut sub = sub;
            out.append(&mut sub);
            assert(prev + self.walk_kids(id, i as int) == out@ + self.walk_kids(id, i + 1));
            i = i + 1;
        }
        assert(self.walk_kids(id, i as int) == Seq::<WalkStep>::empty());
        assert(out@ == seq![WalkStep::Enter(id)] + self.walk_kids(id, 0));
        out.push(WalkStep::Leave(id));
        out
    }
}

} // verus!
