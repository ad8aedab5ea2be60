use entity_doc::document::{DocError, Document, EntityId, PropRef, WalkStep, NO_PARENT};
use entity_doc::pon::{EntityPath, NamedPropRef, Pon, TypedPon};

fn num(s: &str) -> Pon {
    Pon::Number(s.to_string())
}

fn reference(path: EntityPath, key: &str) -> Pon {
    Pon::DependencyReference(NamedPropRef { entity_path: path, property_key: key.to_string() })
}

fn this_x() -> Pon {
    reference(EntityPath::This, "x")
}

/// One entity named "tmp" with `x = 5.0` and, if given, `y`.
fn doc_with(y: Option<Pon>) -> Document {
    let mut doc = Document::new();
    let ent = doc.append_entity(NO_PARENT, "Entity".to_string(), Some("tmp".to_string())).unwrap();
    doc.set_property(&ent, "x", num("5.0")).unwrap();
    if let Some(y) = y {
        let _ = doc.set_property(&ent, "y", y);
    }
    doc
}

fn prop_ref(id: EntityId, key: &str) -> PropRef {
    PropRef { entity_id: id, property_key: key.to_string() }
}

#[test]
fn test_property_get() {
    let doc = doc_with(None);
    let ent = doc.get_entity_by_name("tmp").unwrap();
    assert_eq!(doc.get_property_value(&ent, "x"), Ok(num("5.0")));
}

#[test]
fn test_property_set() {
    let mut doc = doc_with(None);
    let ent = doc.get_entity_by_name("tmp").unwrap();
    {
        doc.set_property(&ent, "x", Pon::Integer(9)).unwrap();
    }
    assert_eq!(doc.get_property_value(&ent, "x"), Ok(Pon::Integer(9)));
}

#[test]
fn test_property_reference_straight() {
    let doc = doc_with(Some(this_x()));
    let ent = doc.get_entity_by_name("tmp").unwrap();
    assert_eq!(doc.get_property_value(&ent, "y"), Ok(num("5.0")));
}

#[test]
fn test_property_reference_object() {
    let doc = doc_with(Some(Pon::Object(vec![("some".to_string(), this_x())])));
    let ent = doc.get_entity_by_name("tmp").unwrap();
    assert_eq!(
        doc.get_property_value(&ent, "y"),
        Ok(Pon::Object(vec![("some".to_string(), num("5.0"))]))
    );
}

#[test]
fn test_property_reference_transfer() {
    let y = Pon::TypedPon(Box::new(TypedPon { type_tag: "something".to_string(), data: this_x() }));
    let doc = doc_with(Some(y));
    let ent = doc.get_entity_by_name("tmp").unwrap();
    let expected = Pon::TypedPon(Box::new(TypedPon { type_tag: "something".to_string(), data: num("5.0") }));
    assert_eq!(doc.get_property_value(&ent, "y"), Ok(expected));
}

#[test]
fn test_property_reference_array() {
    let doc = doc_with(Some(Pon::Array(vec![this_x()])));
    let ent = doc.get_entity_by_name("tmp").unwrap();
    assert_eq!(doc.get_property_value(&ent, "y"), Ok(Pon::Array(vec![num("5.0")])));
}

#[test]
fn test_property_reference_bad_ref() {
    let doc = doc_with(Some(reference(EntityPath::Named("what".to_string()), "x")));
    let ent = doc.get_entity_by_name("tmp").unwrap();
    assert_eq!(doc.get_property_value(&ent, "y"), Err(DocError::NoSuchProperty("y".to_string())));
}

#[test]
fn test_property_reference_parent() {
    let mut doc = Document::new();
    let parent = doc.append_entity(NO_PARENT, "Entity".to_string(), None).unwrap();
    doc.set_property(&parent, "x", num("5.0")).unwrap();
    let child = doc.append_entity(parent, "Entity".to_string(), Some("tmp".to_string())).unwrap();
    doc.set_property(&child, "y", reference(EntityPath::Parent, "x")).unwrap();
    let ent = doc.get_entity_by_name("tmp").unwrap();
    assert_eq!(doc.get_property_value(&ent, "y"), Ok(num("5.0")));
}

#[test]
fn test_property_reference_update() {
    let mut doc = doc_with(Some(this_x()));
    let ent = doc.get_entity_by_name("tmp").unwrap();
    {
        let cascades = doc.set_property(&ent, "x", Pon::Integer(9)).ok().unwrap();
        assert_eq!(cascades.len(), 2);
        assert_eq!(cascades[0], PropRef { entity_id: ent, property_key: "x".to_string() });
        assert_eq!(cascades[1], PropRef { entity_id: ent, property_key: "y".to_string() });
    }
    assert_eq!(doc.get_property_value(&ent, "y"), Ok(Pon::Integer(9)));
}

#[test]
fn bad_reference_is_reported_by_set_property() {
    let mut doc = doc_with(None);
    let ent = doc.get_entity_by_name("tmp").unwrap();
    let r = doc.set_property(&ent, "y", reference(EntityPath::Named("what".to_string()), "x"));
    assert_eq!(r, Err(DocError::BadReference));
    assert_eq!(doc.has_property(&ent, "y"), Ok(false));
}

#[test]
fn appended_ids_are_fresh_and_children_keep_order() {
    let mut doc = Document::new();
    let root = doc.append_entity(NO_PARENT, "Root".to_string(), None).unwrap();
    assert_eq!(root, *doc.get_root());
    let mut ids = vec![root];
    for i in 0..5 {
        let id = doc.append_entity(root, format!("Child{}", i), None).unwrap();
        assert!(!ids.contains(&id));
        ids.push(id);
    }
    assert_eq!(doc.get_children(&root).unwrap(), &ids[1..].to_vec());
    assert_eq!(doc.iter(), vec![1, 2, 3, 4, 5, 6]);
    assert_eq!(doc.get_entity_type_name(&ids[3]).unwrap(), "Child2");
}

#[test]
fn append_under_missing_parent_fails() {
    let mut doc = Document::new();
    assert_eq!(doc.append_entity(7, "E".to_string(), None), Err(DocError::InvalidParent));
    assert_eq!(doc.iter(), Vec::<EntityId>::new());
}

#[test]
fn later_name_wins() {
    let mut doc = Document::new();
    let a = doc.append_entity(NO_PARENT, "E".to_string(), Some("dup".to_string())).unwrap();
    let b = doc.append_entity(a, "E".to_string(), Some("dup".to_string())).unwrap();
    assert_eq!(doc.get_entity_by_name("dup"), Some(b));
    assert_eq!(doc.get_entity_by_name("none"), None);
}

#[test]
fn search_is_depth_first_in_append_order() {
    let mut doc = Document::new();
    let root = doc.append_entity(NO_PARENT, "R".to_string(), None).unwrap();
    let a = doc.append_entity(root, "A".to_string(), None).unwrap();
    let b = doc.append_entity(root, "B".to_string(), Some("t".to_string())).unwrap();
    let deep = doc.append_entity(a, "C".to_string(), Some("t".to_string())).unwrap();
    assert_eq!(doc.search_children(&root, "t"), Ok(deep));
    assert_eq!(doc.search_children(&b, "t"), Ok(b));
    assert_eq!(doc.search_children(&a, "missing"), Err(DocError::BadReference));
    let path = EntityPath::Search(Box::new(EntityPath::This), "t".to_string());
    assert_eq!(doc.resolve_entity_path(&root, &path), Ok(deep));
}

#[test]
fn resolve_paths() {
    let mut doc = Document::new();
    let root = doc.append_entity(NO_PARENT, "R".to_string(), Some("top".to_string())).unwrap();
    let child = doc.append_entity(root, "C".to_string(), None).unwrap();
    assert_eq!(doc.resolve_entity_path(&child, &EntityPath::This), Ok(child));
    assert_eq!(doc.resolve_entity_path(&child, &EntityPath::Parent), Ok(root));
    assert_eq!(doc.resolve_entity_path(&root, &EntityPath::Parent), Ok(NO_PARENT));
    assert_eq!(doc.resolve_entity_path(&99, &EntityPath::Parent), Err(DocError::BadReference));
    assert_eq!(doc.resolve_entity_path(&child, &EntityPath::Named("top".to_string())), Ok(root));
    let named = NamedPropRef { entity_path: EntityPath::Parent, property_key: "k".to_string() };
    assert_eq!(doc.resolve_named_prop_ref(&child, &named), Ok(prop_ref(root, "k")));
}

#[test]
fn forward_reference_creates_empty_property() {
    let mut doc = Document::new();
    let e = doc.append_entity(NO_PARENT, "E".to_string(), None).unwrap();
    doc.set_property(&e, "y", reference(EntityPath::This, "z")).unwrap();
    assert_eq!(doc.get_property_value(&e, "z"), Ok(Pon::Nil));
    assert_eq!(doc.get_property_value(&e, "y"), Ok(Pon::Nil));
    let cascade = doc.set_property(&e, "z", Pon::Boolean(true)).unwrap();
    assert_eq!(cascade, vec![prop_ref(e, "z"), prop_ref(e, "y")]);
    assert_eq!(doc.get_property_value(&e, "y"), Ok(Pon::Boolean(true)));
}

#[test]
fn cascade_follows_chains_depth_first() {
    let mut doc = Document::new();
    let e = doc.append_entity(NO_PARENT, "E".to_string(), None).unwrap();
    let f = doc.append_entity(e, "F".to_string(), None).unwrap();
    doc.set_property(&e, "a", Pon::Integer(1)).unwrap();
    doc.set_property(&e, "b", reference(EntityPath::This, "a")).unwrap();
    doc.set_property(&f, "c", reference(EntityPath::Parent, "b")).unwrap();
    doc.set_property(&e, "d", reference(EntityPath::This, "a")).unwrap();
    let cascade = doc.set_property(&e, "a", Pon::Integer(2)).unwrap();
    assert_eq!(cascade, vec![prop_ref(e, "a"), prop_ref(e, "b"), prop_ref(f, "c"), prop_ref(e, "d")]);
    assert_eq!(doc.get_property_value(&f, "c"), Ok(Pon::Integer(2)));
}

#[test]
fn reference_cycle_is_reported() {
    let mut doc = Document::new();
    let e = doc.append_entity(NO_PARENT, "E".to_string(), None).unwrap();
    let r = doc.set_property(&e, "x", reference(EntityPath::This, "x"));
    assert_eq!(r, Err(DocError::DependencyCycle));
}

#[test]
fn queries_on_missing_entities() {
    let mut doc = Document::new();
    assert_eq!(doc.get_property_value(&3, "x"), Err(DocError::NoSuchEntity));
    assert_eq!(doc.set_property(&3, "x", Pon::Nil), Err(DocError::NoSuchEntity));
    assert_eq!(doc.has_property(&3, "x"), Err(DocError::NoSuchEntity));
    assert_eq!(doc.get_properties(&3), Err(DocError::NoSuchEntity));
    assert_eq!(doc.get_children(&3), Err(DocError::NoSuchEntity));
    assert_eq!(doc.get_entity_type_name(&3), Err(DocError::NoSuchEntity));
    let e = doc.append_entity(NO_PARENT, "E".to_string(), None).unwrap();
    assert_eq!(doc.get_property_value(&e, "x"), Err(DocError::NoSuchProperty("x".to_string())));
}

#[test]
fn properties_are_listed() {
    let mut doc = Document::new();
    let e = doc.append_entity(NO_PARENT, "E".to_string(), None).unwrap();
    doc.set_property(&e, "a", Pon::String("s".to_string())).unwrap();
    doc.set_property(&e, "b", Pon::Integer(3)).unwrap();
    doc.set_property(&e, "a", Pon::Integer(4)).unwrap();
    assert_eq!(doc.get_properties(&e), Ok(vec![prop_ref(e, "a"), prop_ref(e, "b")]));
    assert_eq!(doc.has_property(&e, "b"), Ok(true));
    assert_eq!(doc.get_property_value(&e, "a"), Ok(Pon::Integer(4)));
}

#[test]
fn elements_nest_through_the_stack() {
    let mut doc = Document::new();
    let mut stack: Vec<EntityId> = Vec::new();
    let outer = doc.open_element(&mut stack, "Entity".to_string(), None, vec![("x".to_string(), num("5.0"))]);
    let inner = doc.open_element(
        &mut stack,
        "Entity".to_string(),
        Some("tmp".to_string()),
        vec![("y".to_string(), reference(EntityPath::Parent, "x"))],
    );
    assert_eq!(stack, vec![outer, inner]);
    Document::close_element(&mut stack);
    let sibling = doc.open_element(&mut stack, "Other".to_string(), None, vec![]);
    Document::close_element(&mut stack);
    Document::close_element(&mut stack);
    assert!(stack.is_empty());
    assert_eq!(doc.get_children(&outer).unwrap(), &vec![inner, sibling]);
    assert_eq!(doc.get_property_value(&inner, "y"), Ok(num("5.0")));
}

#[test]
fn dependency_references_are_listed_in_order() {
    let p = Pon::Array(vec![
        reference(EntityPath::This, "a"),
        Pon::Object(vec![("k".to_string(), reference(EntityPath::Parent, "b"))]),
        Pon::Integer(1),
    ]);
    let mut out = Vec::new();
    p.get_dependency_references(&mut out);
    assert_eq!(out.len(), 2);
    assert_eq!(out[0].property_key, "a");
    assert_eq!(out[1].entity_path, EntityPath::Parent);
}

#[test]
fn walk_is_pre_order() {
    let mut doc = Document::new();
    let root = doc.append_entity(NO_PARENT, "R".to_string(), None).unwrap();
    let a = doc.append_entity(root, "A".to_string(), None).unwrap();
    let b = doc.append_entity(root, "B".to_string(), None).unwrap();
    let c = doc.append_entity(a, "C".to_string(), None).unwrap();
    assert_eq!(
        doc.walk_from(&root),
        vec![
            WalkStep::Enter(root),
            WalkStep::Enter(a),
            WalkStep::Enter(c),
            WalkStep::Leave(c),
            WalkStep::Leave(a),
            WalkStep::Enter(b),
            WalkStep::Leave(b),
            WalkStep::Leave(root),
        ]
    );
    assert_eq!(doc.walk_from(&42), vec![]);
}

#[test]
fn assignment_leaves_other_properties_alone() {
    let mut doc = Document::new();
    let e = doc.append_entity(NO_PARENT, "E".to_string(), None).unwrap();
    doc.set_property(&e, "a", Pon::Integer(1)).unwrap();
    doc.set_property(&e, "b", reference(EntityPath::This, "a")).unwrap();
    doc.set_property(&e, "c", Pon::Integer(3)).unwrap();
    doc.set_property(&e, "c", Pon::Integer(4)).unwrap();
    assert_eq!(doc.get_property_value(&e, "a"), Ok(Pon::Integer(1)));
    assert_eq!(doc.get_property_value(&e, "b"), Ok(Pon::Integer(1)));
    let cascade = doc.set_property(&e, "a", Pon::Integer(2)).unwrap();
    assert_eq!(cascade, vec![prop_ref(e, "a"), prop_ref(e, "b")]);
}

#[test]
fn parent_reference_from_top_level_is_bad() {
    let mut doc = Document::new();
    let e = doc.append_entity(NO_PARENT, "E".to_string(), None).unwrap();
    let r = doc.set_property(&e, "y", reference(EntityPath::Parent, "x"));
    assert_eq!(r, Err(DocError::BadReference));
    assert_eq!(doc.get_properties(&e), Ok(vec![]));
}

#[test]
fn opened_element_keeps_its_name() {
    let mut doc = Document::new();
    let mut stack: Vec<EntityId> = Vec::new();
    let id = doc.open_element(&mut stack, "T".to_string(), Some("n".to_string()), vec![("k".to_string(), Pon::Nil)]);
    assert_eq!(doc.get_entity_by_name("n"), Some(id));
    assert_eq!(doc.has_property(&id, "k"), Ok(true));
}
