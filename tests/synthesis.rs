use bpf_script_derive::binding::{calculate_hash, local_ident};
use bpf_script_derive::descriptor::{canonical_name_of, TypeDescriptor};
use bpf_script_derive::overrides::{parse_override, OverrideError};
use bpf_script_derive::plan::{FieldDecl, Step, StepKind, SynthesisError, TypeOverride};
use bpf_script_derive::registrar::{Registrar, Request};
use bpf_script_derive::synthesis::synthesize;
use bpf_script_derive::walker::walk;
use std::collections::HashMap;
use std::hash::{Hash, Hasher};

fn leaf(name: &str) -> TypeDescriptor {
    TypeDescriptor::Leaf { source_name: name.to_string() }
}

fn array(element: TypeDescriptor, count: u32) -> TypeDescriptor {
    TypeDescriptor::Array { element: Box::new(element), count }
}

fn field(name: &str, ty: TypeDescriptor) -> FieldDecl {
    FieldDecl { name: name.to_string(), ty, type_override: None }
}

fn names(steps: &[Step]) -> Vec<String> {
    steps.iter().map(|s| s.name.clone()).collect()
}

fn record_fields(steps: &[Step]) -> Vec<(String, String)> {
    match &steps.last().unwrap().kind {
        StepKind::Struct { fields } => fields
            .iter()
            .map(|f| (f.name.clone(), steps[f.target].name.clone()))
            .collect(),
        _ => panic!("the last step is not a record"),
    }
}

#[test]
fn walk_registers_innermost_first() {
    let ty = array(array(leaf("byte"), 32), 10);
    let order: Vec<String> = walk(&ty).iter().map(|d| canonical_name_of(d)).collect();
    assert_eq!(order, vec!["byte", "[byte; 32]", "[[byte; 32]; 10]"]);
}

#[test]
fn walk_of_tuple_visits_elements_in_order() {
    let ty = TypeDescriptor::Tuple { elements: vec![leaf("u8"), array(leaf("u16"), 2)] };
    let order: Vec<String> = walk(&ty).iter().map(|d| canonical_name_of(d)).collect();
    assert_eq!(order, vec!["u8", "u16", "[u16; 2]", "(u8, [u16; 2])"]);
}

#[test]
fn canonical_name_of_three_dimensional_array() {
    let a = array(array(array(leaf("u32"), 100), 32), 10);
    let b = array(array(array(leaf("u32"), 100), 32), 10);
    assert_eq!(canonical_name_of(&a), "[[[u32; 100]; 32]; 10]");
    assert_eq!(canonical_name_of(&a), canonical_name_of(&b));
    assert_eq!(canonical_name_of(&array(leaf("u8"), 0)), "[u8; 0]");
    assert_eq!(canonical_name_of(&array(leaf("u8"), u32::MAX)), "[u8; 4294967295]");
}

#[test]
fn canonical_name_of_tuples() {
    assert_eq!(canonical_name_of(&TypeDescriptor::Tuple { elements: vec![] }), "()");
    assert_eq!(canonical_name_of(&TypeDescriptor::Tuple { elements: vec![leaf("u8")] }), "(u8,)");
    assert_eq!(
        canonical_name_of(&TypeDescriptor::Tuple { elements: vec![leaf("u8"), leaf("i64")] }),
        "(u8, i64)"
    );
}

#[test]
fn plan_of_nested_array_registers_dependencies_first() {
    let fields = vec![field("grid", array(array(leaf("byte"), 32), 10))];
    let steps = synthesize(&"Grid".to_string(), &fields).unwrap();
    assert_eq!(names(&steps), vec!["byte", "[byte; 32]", "[[byte; 32]; 10]", "Grid"]);
    match &steps[1].kind {
        StepKind::Array { element, count } => {
            assert_eq!(*element, 0);
            assert_eq!(*count, 32);
        }
        _ => panic!("expected an array"),
    }
    match &steps[2].kind {
        StepKind::Array { element, count } => {
            assert_eq!(*element, 1);
            assert_eq!(*count, 10);
        }
        _ => panic!("expected an array"),
    }
}

#[test]
fn record_keeps_field_order() {
    let fields = vec![
        field("_u8", leaf("u8")),
        field("_u16", leaf("u16")),
        field("_array", array(leaf("u8"), 10)),
        field("_inner", leaf("InnerType")),
        field("_array2d", array(array(leaf("u8"), 32), 10)),
    ];
    let steps = synthesize(&"CustomStructure".to_string(), &fields).unwrap();
    assert_eq!(
        names(&steps),
        vec!["u8", "u16", "[u8; 10]", "InnerType", "[u8; 32]", "[[u8; 32]; 10]", "CustomStructure"]
    );
    assert_eq!(
        record_fields(&steps),
        vec![
            ("_u8".to_string(), "u8".to_string()),
            ("_u16".to_string(), "u16".to_string()),
            ("_array".to_string(), "[u8; 10]".to_string()),
            ("_inner".to_string(), "InnerType".to_string()),
            ("_array2d".to_string(), "[[u8; 32]; 10]".to_string()),
        ]
    );
}

#[test]
fn repeated_types_are_registered_once() {
    let fields = vec![
        field("a", array(leaf("u8"), 10)),
        field("b", array(leaf("u8"), 10)),
        field("c", leaf("u8")),
    ];
    let steps = synthesize(&"Twice".to_string(), &fields).unwrap();
    assert_eq!(names(&steps), vec!["u8", "[u8; 10]", "Twice"]);
    assert_eq!(
        record_fields(&steps),
        vec![
            ("a".to_string(), "[u8; 10]".to_string()),
            ("b".to_string(), "[u8; 10]".to_string()),
            ("c".to_string(), "u8".to_string()),
        ]
    );
}

#[test]
fn tuple_becomes_struct_with_positional_fields() {
    let fields = vec![field("t", TypeDescriptor::Tuple { elements: vec![leaf("u8"), leaf("u32")] })];
    let steps = synthesize(&"T".to_string(), &fields).unwrap();
    assert_eq!(names(&steps), vec!["u8", "u32", "(u8, u32)", "T"]);
    match &steps[2].kind {
        StepKind::Struct { fields } => {
            assert_eq!(fields.len(), 2);
            assert_eq!(fields[0].name, "0");
            assert_eq!(fields[0].target, 0);
            assert_eq!(fields[1].name, "1");
            assert_eq!(fields[1].target, 1);
        }
        _ => panic!("expected a struct"),
    }
}

#[test]
fn override_with_count_bypasses_the_declared_type() {
    let fields = vec![
        FieldDecl {
            name: "buf".to_string(),
            ty: array(array(leaf("u32"), 2), 3),
            type_override: Some(TypeOverride { basename: "u8".to_string(), count: Some(4) }),
        },
        field("tail", array(leaf("u8"), 4)),
    ];
    let steps = synthesize(&"Packet".to_string(), &fields).unwrap();
    assert_eq!(names(&steps), vec!["u8", "Packet::buf::u8", "[u8; 4]", "Packet"]);
    match &steps[1].kind {
        StepKind::Array { element, count } => {
            assert_eq!(*element, 0);
            assert_eq!(*count, 4);
        }
        _ => panic!("expected an array"),
    }
    assert_eq!(
        record_fields(&steps),
        vec![
            ("buf".to_string(), "Packet::buf::u8".to_string()),
            ("tail".to_string(), "[u8; 4]".to_string()),
        ]
    );
}

#[test]
fn override_without_count_names_a_leaf() {
    let fields = vec![FieldDecl {
        name: "raw".to_string(),
        ty: array(leaf("u8"), 8),
        type_override: Some(TypeOverride { basename: "u64".to_string(), count: None }),
    }];
    let steps = synthesize(&"R".to_string(), &fields).unwrap();
    assert_eq!(names(&steps), vec!["u64", "R"]);
    assert!(matches!(steps[0].kind, StepKind::Leaf));
}

#[test]
fn unnamed_field_is_refused() {
    let fields = vec![field("a", leaf("u8")), field("", leaf("u8")), field("", leaf("u8"))];
    let r = synthesize(&"Bad".to_string(), &fields);
    assert!(matches!(r, Err(SynthesisError::UnnamedField(1))));
}

#[test]
fn record_without_fields_is_planned_alone() {
    let steps = synthesize(&"Empty".to_string(), &vec![]).unwrap();
    assert_eq!(names(&steps), vec!["Empty"]);
    assert!(record_fields(&steps).is_empty());
}

#[test]
fn override_texts_are_parsed() {
    let o = parse_override("u8").unwrap();
    assert_eq!(o.basename, "u8");
    assert_eq!(o.count, None);
    let o = parse_override("_buf9[10]").unwrap();
    assert_eq!(o.basename, "_buf9");
    assert_eq!(o.count, Some(10));
    let o = parse_override("x[4294967295]").unwrap();
    assert_eq!(o.count, Some(u32::MAX));
    let o = parse_override("x[0]").unwrap();
    assert_eq!(o.count, Some(0));
}

#[test]
fn malformed_override_texts_are_refused() {
    for text in ["", "8u", "u8[", "u8[]", "u8[1x]", "u8[10]x", "u 8", "[3]", "u8[-1]", "u8(3)"] {
        assert_eq!(parse_override(text).err(), Some(OverrideError::Malformed), "{}", text);
    }
    assert_eq!(parse_override("u8[4294967296]").err(), Some(OverrideError::CountTooLarge));
    assert_eq!(parse_override("u8[99999999999999999999999]").err(), Some(OverrideError::CountTooLarge));
    assert_eq!(parse_override("u8[99999999999999999999x]").err(), Some(OverrideError::Malformed));
}

/// A catalog kept in memory for the tests: entries by identifier, and an
/// index by name.
#[derive(Default)]
struct TestCatalog {
    entries: Vec<(String, Vec<(String, u64)>)>,
    by_name: HashMap<String, u64>,
    refuse: Option<String>,
}

impl TestCatalog {
    fn add(&mut self, name: &str, fields: Vec<(String, u64)>) -> Result<u64, String> {
        if self.refuse.as_deref() == Some(name) {
            return Err(format!("refused {}", name));
        }
        if let Some(id) = self.by_name.get(name) {
            return Ok(*id);
        }
        let id = self.entries.len() as u64;
        self.entries.push((name.to_string(), fields));
        self.by_name.insert(name.to_string(), id);
        Ok(id)
    }

    fn answer(&mut self, request: &Request) -> Result<u64, String> {
        match request {
            Request::Leaf { name } => self.add(name, vec![]),
            Request::Array { name, element, count } => {
                self.add(name, vec![(format!("[{}]", count), *element)])
            }
            Request::Struct { name, fields } => {
                self.add(name, fields.iter().map(|f| (f.name.clone(), f.id)).collect())
            }
        }
    }
}

fn run(catalog: &mut TestCatalog, steps: Vec<Step>) -> (Result<u64, String>, Vec<String>) {
    let mut registrar: Registrar<String> = Registrar::new(steps).unwrap();
    let mut asked = vec![];
    while !registrar.is_finished() {
        let request = registrar.pending();
        asked.push(match &request {
            Request::Leaf { name } => name.clone(),
            Request::Array { name, .. } => name.clone(),
            Request::Struct { name, .. } => name.clone(),
        });
        let answer = catalog.answer(&request);
        registrar.complete(answer);
    }
    (registrar.finish(), asked)
}

#[test]
fn pair_is_registered_end_to_end() {
    let fields = vec![field("a", leaf("byte")), field("b", array(leaf("byte"), 10))];
    let steps = synthesize(&"Pair".to_string(), &fields).unwrap();
    let mut catalog = TestCatalog::default();
    let (r, asked) = run(&mut catalog, steps);
    let pair = r.unwrap();
    assert_eq!(asked, vec!["byte", "[byte; 10]", "Pair"]);
    let byte = catalog.by_name["byte"];
    let arr = catalog.by_name["[byte; 10]"];
    assert_eq!(catalog.by_name["Pair"], pair);
    assert_eq!(catalog.entries[arr as usize].1, vec![("[10]".to_string(), byte)]);
    assert_eq!(
        catalog.entries[pair as usize].1,
        vec![("a".to_string(), byte), ("b".to_string(), arr)]
    );
}

#[test]
fn pair_reuses_an_existing_leaf() {
    let mut catalog = TestCatalog::default();
    let existing = catalog.add("byte", vec![]).unwrap();
    let fields = vec![field("a", leaf("byte")), field("b", array(leaf("byte"), 10))];
    let steps = synthesize(&"Pair".to_string(), &fields).unwrap();
    let pair = run(&mut catalog, steps).0.unwrap();
    assert_eq!(catalog.entries[pair as usize].1[0], ("a".to_string(), existing));
}

#[test]
fn refused_dependency_fails_the_record() {
    let fields = vec![field("a", leaf("byte")), field("b", array(leaf("byte"), 10))];
    let steps = synthesize(&"Pair".to_string(), &fields).unwrap();
    let mut catalog = TestCatalog { refuse: Some("[byte; 10]".to_string()), ..Default::default() };
    let (r, asked) = run(&mut catalog, steps);
    assert_eq!(r, Err("refused [byte; 10]".to_string()));
    assert_eq!(asked, vec!["byte", "[byte; 10]"]);
    assert!(!catalog.by_name.contains_key("Pair"));
    assert!(catalog.by_name.contains_key("byte"));
}

#[test]
fn plan_with_forward_reference_is_not_runnable() {
    let steps = vec![
        Step { name: "[u8; 2]".to_string(), kind: StepKind::Array { element: 1, count: 2 } },
        Step { name: "u8".to_string(), kind: StepKind::Leaf },
    ];
    assert!(Registrar::<String>::new(steps).is_none());
    assert!(Registrar::<String>::new(vec![]).is_none());
    let own = vec![Step {
        name: "S".to_string(),
        kind: StepKind::Struct {
            fields: vec![bpf_script_derive::plan::FieldRef { name: "x".to_string(), target: 0 }],
        },
    }];
    assert!(Registrar::<String>::new(own).is_none());
}

fn std_hash(s: &str) -> u64 {
    let mut h = std::collections::hash_map::DefaultHasher::new();
    s.hash(&mut h);
    h.finish()
}

#[test]
fn hash_of_type_follows_its_canonical_name() {
    let a = array(leaf("u8"), 10);
    let b = array(leaf("u8"), 10);
    assert_eq!(calculate_hash(&a), calculate_hash(&b));
    assert_eq!(calculate_hash(&a), std_hash("[u8; 10]"));
    assert_ne!(calculate_hash(&a), calculate_hash(&array(leaf("u8"), 11)));
}

#[test]
fn local_ident_is_prefixed_decimal_hash() {
    assert_eq!(local_ident("[u8; 10]"), format!("local_{}", std_hash("[u8; 10]")));
    assert_ne!(local_ident("u8"), local_ident("u16"));
}
