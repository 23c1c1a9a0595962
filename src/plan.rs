//! Registration plans: what a record's synthesis hands to the catalog, and
//! the mathematical description of the plan owed for a record.
use vstd::prelude::*;

use crate::descriptor::{canonical_name, decimal, TypeDescriptor};
use crate::walker::walk_spec;

verus! {

/// Field-level metadata that names the field's catalog type directly, as
/// `basename` or `basename[count]`.
pub struct TypeOverride {
    pub basename: String,
    pub count: Option<u32>,
}

/// One field of a record as declared: its name, its declared type, and an
/// optional override of that type.
pub struct FieldDecl {
    pub name: String,
    pub ty: TypeDescriptor,
    pub type_override: Option<TypeOverride>,
}

/// A named reference to the result of an earlier step of a plan.
pub struct FieldRef {
    pub name: String,
    pub target: usize,
}

/// What one step of a plan registers.
pub enum StepKind {
    /// A leaf type, known to the catalog by the step's name.
    Leaf,
    /// `count` repetitions of the type registered by step `element`.
    Array { element: usize, count: u32 },
    /// A record (or a tuple, with fields named `0`, `1`, ...) whose fields
    /// refer to earlier steps.
    Struct { fields: Vec<FieldRef> },
}

/// One registration call of a plan, under the catalog name `name`.
pub struct Step {
    pub name: String,
    pub kind: StepKind,
}

/// Why a record cannot be planned.
#[derive(PartialEq, Eq, Structural, Debug, Clone, Copy)]
pub enum SynthesisError {
    /// The field at this position has an empty name.
    UnnamedField(usize),
}

/// A type to be registered under a name: the name and the descriptor whose
/// shape the registration has.
pub type Item = (Seq<char>, TypeDescriptor);

/// The name under which an overridden `basename[count]` field registers its
/// array type: unique to the record, the field and the base name.
pub open spec fn override_name(record: Seq<char>, field: Seq<char>, base: Seq<char>) -> Seq<char> {
    record + seq![':', ':'] + field + seq![':', ':'] + base
}

/// A descriptor registered under its canonical name.
pub open spec fn item_of(d: TypeDescriptor) -> Item {
    (canonical_name(d), d)
}

/// The types that one field needs registered, dependencies first: the walk
/// of its declared type, or, for an override, the base type and, where a
/// count is given, the array of it.
pub open spec fn field_items(record: Seq<char>, f: FieldDecl) -> Seq<Item> {
    match f.type_override {
        None => walk_spec(f.ty).map_values(|d: TypeDescriptor| item_of(d)),
        Some(o) => {
            let leaf = TypeDescriptor::Leaf { source_name: o.basename };
            match o.count {
                None => seq![(o.basename@, leaf)],
                Some(n) => seq![
                    (o.basename@, leaf),
                    (
                        override_name(record, f.name@, o.basename@),
                        TypeDescriptor::Array { element: Box::new(leaf), count: n },
                    ),
                ],
            }
        },
    }
}

/// Override bypass: a field with a `basename[count]` override needs the
/// base leaf and one array, named by the record, the field and the base
/// name, and nothing else, whatever its declared type.
pub proof fn lemma_override_bypasses_walk(record: Seq<char>, f: FieldDecl, other: TypeDescriptor)
    requires
        f.type_override matches Some(o) && o.count is Some,
    ensures
        field_items(record, f) == field_items(
            record,
            FieldDecl { name: f.name, ty: other, type_override: f.type_override },
        ),
        field_items(record, f).len() == 2,
        field_items(record, f)[1].0 == override_name(
            record,
            f.name@,
            f.type_override->Some_0.basename@,
        ),
        field_items(record, f)[1].1 matches TypeDescriptor::Array { element, count } && count
            == f.type_override->Some_0.count->Some_0 && *element == (TypeDescriptor::Leaf {
            source_name: f.type_override->Some_0.basename,
        }),
        field_items(record, f)[0].1 is Leaf,
{
}

/// The catalog name that a field's entry in the record refers to.
pub open spec fn field_type_name(record: Seq<char>, f: FieldDecl) -> Seq<char> {
    field_items(record, f).last().0
}

/// The items of all fields, field after field.
pub open spec fn all_items(record: Seq<char>, fields: Seq<FieldDecl>) -> Seq<Item>
    decreases fields.len(),
{
    if fields.len() == 0 {
        Seq::empty()
    } else {
        all_items(record, fields.drop_last()) + field_items(record, fields.last())
    }
}

/// The names of a sequence of items.
pub open spec fn names(s: Seq<Item>) -> Seq<Seq<char>> {
    s.map_values(|it: Item| it.0)
}

/// `s` with every item dropped whose name an earlier item already has.
pub open spec fn dedup(s: Seq<Item>) -> Seq<Item>
    decreases s.len(),
{
    if s.len() == 0 {
        Seq::empty()
    } else {
        let p = dedup(s.drop_last());
        if names(p).contains(s.last().0) {
            p
        } else {
            p.push(s.last())
        }
    }
}

/// Step `t` comes before step `i` and is registered under `name`.
pub open spec fn refers(steps: Seq<Step>, i: int, t: usize, name: Seq<char>) -> bool {
    0 <= t < i && steps[t as int].name@ == name
}

/// Step `i` registers `it`: under its name, with the shape of its
/// descriptor, each constituent referred to by its canonical name.
pub open spec fn step_realizes(steps: Seq<Step>, i: int, it: Item) -> bool {
    &&& steps[i].name@ == it.0
    &&& match it.1 {
        TypeDescriptor::Leaf { .. } => steps[i].kind is Leaf,
        TypeDescriptor::Array { element, count } => match steps[i].kind {
            StepKind::Array { element: e, count: n } => n == count && refers(
                steps,
                i,
                e,
                canonical_name(*element),
            ),
            _ => false,
        },
        TypeDescriptor::Tuple { elements } => match steps[i].kind {
            StepKind::Struct { fields } => {
                &&& fields@.len() == elements@.len()
                &&& forall|j: int|
                    0 <= j < fields@.len() ==> #[trigger] fields@[j].name@ == decimal(j as nat)
                        && refers(steps, i, fields@[j].target, canonical_name(elements@[j]))
            },
            _ => false,
        },
    }
}

/// The last step registers the record: under its name, with one field per
/// declared field, in declaration order, each referring to the step that
/// registered the field's type.
pub open spec fn record_realized(steps: Seq<Step>, record: Seq<char>, fields: Seq<FieldDecl>) -> bool {
    let i = steps.len() - 1;
    &&& steps.len() > 0
    &&& steps[i].name@ == record
    &&& match steps[i].kind {
        StepKind::Struct { fields: refs } => {
            &&& refs@.len() == fields.len()
            &&& forall|j: int|
                0 <= j < refs@.len() ==> #[trigger] refs@[j].name@ == fields[j].name@ && refers(
                    steps,
                    i,
                    refs@[j].target,
                    field_type_name(record, fields[j]),
                )
        },
        _ => false,
    }
}

/// The steps before position `n` have pairwise distinct names.
pub open spec fn distinct_names(steps: Seq<Step>, n: int) -> bool {
    forall|i: int, j: int| 0 <= i < j < n ==> steps[i].name@ != steps[j].name@
}

/// The plan owed for a record: each distinct item of its fields once, in
/// order of first occurrence, then the record itself.
pub open spec fn is_plan_for(steps: Seq<Step>, record: Seq<char>, fields: Seq<FieldDecl>) -> bool {
    let d = dedup(all_items(record, fields));
    &&& steps.len() == d.len() + 1
    &&& forall|i: int| 0 <= i < d.len() ==> #[trigger] step_realizes(steps, i, d[i])
    &&& distinct_names(steps, d.len() as int)
    &&& record_realized(steps, record, fields)
}

/// The first field with an empty name is at position `j`.
pub open spec fn first_unnamed(fields: Seq<FieldDecl>, j: int) -> bool {
    &&& 0 <= j < fields.len()
    &&& fields[j].name@.len() == 0
    &&& forall|i: int| 0 <= i < j ==> fields[i].name@.len() > 0
}

/// Every field has a non-empty name.
pub open spec fn all_named(fields: Seq<FieldDecl>) -> bool {
    forall|i: int| 0 <= i < fields.len() ==> fields[i].name@.len() > 0
}

} // verus!
