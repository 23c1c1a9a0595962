//! Synthesis of a record's registration plan: the walks of all fields,
//! merged into one sequence with each distinct name registered once, and
//! the record last.
use vstd::prelude::*;

use crate::descriptor::{append_decimal, canonical_name, canonical_name_of, decimal, TypeDescriptor};
use crate::plan::{
    all_items, all_named, dedup, distinct_names, field_items, field_type_name, first_unnamed,
    is_plan_for, item_of, names, override_name, record_realized, refers, step_realizes, FieldDecl,
    FieldRef, Item, Step, StepKind, SynthesisError,
};
use crate::walker::{
    children, dependencies_first, lemma_walk_ends_with_self, occurs_before, targets, walk, walk_spec,
};

verus! {

/// The steps so far register exactly the distinct items of `done`.
pub open spec fn tracks(steps: Seq<Step>, done: Seq<Item>) -> bool {
    let d = dedup(done);
    &&& steps.len() == d.len()
    &&& forall|i: int| 0 <= i < d.len() ==> #[trigger] step_realizes(steps, i, d[i])
}

/// `b` extends `a`, leaving its steps as they were.
pub open spec fn extends(a: Seq<Step>, b: Seq<Step>) -> bool {
    &&& a.len() <= b.len()
    &&& forall|i: int| 0 <= i < a.len() ==> #[trigger] b[i] == a[i]
}

proof fn lemma_names_push(s: Seq<Item>, it: Item)
    ensures
        names(s.push(it)) == names(s).push(it.0),
{
    assert(names(s.push(it)) =~= names(s).push(it.0));
}

proof fn lemma_contains_push(s: Seq<Seq<char>>, y: Seq<char>, x: Seq<char>)
    ensures
        s.push(y).contains(x) <==> (s.contains(x) || x == y),
{
    if s.contains(x) {
        let i = choose|i: int| 0 <= i < s.len() && s[i] == x;
        assert(s.push(y)[i] == x);
    }
    if x == y {
        assert(s.push(y)[s.len() as int] == x);
    }
    if s.push(y).contains(x) {
        let i = choose|i: int| 0 <= i < s.push(y).len() && s.push(y)[i] == x;
        if i < s.len() {
            assert(s[i] == x);
        }
    }
}

/// Dropping repeated names keeps the set of names, and leaves them distinct.
proof fn lemma_dedup_names(s: Seq<Item>)
    ensures
        forall|x: Seq<char>| names(dedup(s)).contains(x) <==> names(s).contains(x),
        forall|i: int, j: int|
            0 <= i < j < dedup(s).len() ==> #[trigger] dedup(s)[i].0 != #[trigger] dedup(s)[j].0,
    decreases s.len(),
{
    if s.len() > 0 {
        let q = s.drop_last();
        lemma_dedup_names(q);
        let p = dedup(q);
        assert(s == q.push(s.last()));
        lemma_names_push(q, s.last());
        lemma_names_push(p, s.last());
        assert forall|x: Seq<char>| names(dedup(s)).contains(x) <==> names(s).contains(x) by {
            lemma_contains_push(names(q), s.last().0, x);
            lemma_contains_push(names(p), s.last().0, x);
        }
        if !names(p).contains(s.last().0) {
            assert forall|i: int, j: int|
                0 <= i < j < dedup(s).len() implies #[trigger] dedup(s)[i].0
                    != #[trigger] dedup(s)[j].0 by {
                if j == p.len() {
                    assert(names(p)[i] == p[i].0);
                }
            }
        }
    }
}

proof fn lemma_realizes_extend(a: Seq<Step>, b: Seq<Step>, i: int, it: Item)
    requires
        0 <= i < a.len(),
        extends(a, b),
        step_realizes(a, i, it),
    ensures
        step_realizes(b, i, it),
{
    assert(b[i] == a[i]);
    match it.1 {
        TypeDescriptor::Leaf { .. } => {},
        TypeDescriptor::Array { element, count } => {
            if let StepKind::Array { element: e, count: n } = a[i].kind {
                assert(b[e as int] == a[e as int]);
            }
        },
        TypeDescriptor::Tuple { elements } => {
            if let StepKind::Struct { fields } = a[i].kind {
                assert forall|j: int| 0 <= j < fields@.len() implies refers(
                    b,
                    i,
                    fields@[j].target,
                    canonical_name(elements@[j]),
                ) by {
                    assert(fields@[j].name@ == decimal(j as nat));
                    assert(refers(a, i, fields@[j].target, canonical_name(elements@[j])));
                    assert(b[fields@[j].target as int] == a[fields@[j].target as int]);
                }
            }
        },
    }
}

proof fn lemma_tracks_extend(a: Seq<Step>, b: Seq<Step>, done: Seq<Item>)
    requires
        tracks(a, done),
        extends(a, b),
    ensures
        forall|i: int| 0 <= i < dedup(done).len() ==> #[trigger] step_realizes(b, i, dedup(done)[i]),
{
    assert forall|i: int| 0 <= i < dedup(done).len() implies #[trigger] step_realizes(
        b,
        i,
        dedup(done)[i],
    ) by {
        lemma_realizes_extend(a, b, i, dedup(done)[i]);
    }
}

/// The position of the step registered under `name`, if there is one.
fn find_step(steps: &Vec<Step>, name: &String) -> (r: Option<usize>)
    ensures
        match r {
            Some(i) => i < steps@.len() && steps@[i as int].name@ == name@,
            None => forall|i: int| 0 <= i < steps@.len() ==> steps@[i].name@ != name@,
        },
{
    let mut i: usize = 0;
    while i < steps.len()
        invariant
            0 <= i <= steps@.len(),
            forall|k: int| 0 <= k < i ==> steps@[k].name@ != name@,
        decreases steps@.len() - i,
    {
        if steps[i].name == *name {
            return Some(i);
        }
        i = i + 1;
    }
    None
}

/// The position of the step registered under `name`, which the items done
/// so far hold.
fn lookup_present(steps: &Vec<Step>, name: &String, Ghost(done): Ghost<Seq<Item>>) -> (r: usize)
    requires
        tracks(steps@, done),
        names(done).contains(name@),
    ensures
        r < steps@.len(),
        steps@[r as int].name@ == name@,
{
    proof {
        lemma_dedup_names(done);
    }
    match find_step(steps, name) {
        Some(i) => i,
        None => {
            proof {
                let d = dedup(done);
                let i = choose|i: int| 0 <= i < names(d).len() && names(d)[i] == name@;
                assert(step_realizes(steps@, i, d[i]));
            }
            0
        },
    }
}

/// The items of a field's type that depend on nothing outside `done`.
pub open spec fn dependencies_done(done: Seq<Item>, d: TypeDescriptor) -> bool {
    forall|c: int|
        0 <= c < children(d).len() ==> names(done).contains(
            #[trigger] canonical_name(children(d)[c]),
        )
}

/// Registers `(name, d)` unless a step of that name exists already.
fn insert_item(steps: &mut Vec<Step>, name: String, d: &TypeDescriptor, Ghost(done): Ghost<Seq<Item>>)
    requires
        tracks(old(steps)@, done),
        dependencies_done(done, *d),
    ensures
        tracks(final(steps)@, done.push((name@, *d))),
        extends(old(steps)@, final(steps)@),
{
    let ghost it: Item = (name@, *d);
    let ghost nd = done.push(it);
    proof {
        assert(nd.drop_last() == done);
        lemma_dedup_names(done);
    }
    match find_step(steps, &name) {
        Some(i) => {
            proof {
                assert(step_realizes(steps@, i as int, dedup(done)[i as int]));
                assert(names(dedup(done))[i as int] == name@);
            }
        },
        None => {
            proof {
                if names(dedup(done)).contains(name@) {
                    let i = choose|i: int| 0 <= i < names(dedup(done)).len() && names(dedup(done))[i] == name@;
                    assert(step_realizes(steps@, i, dedup(done)[i]));
                }
            }
            let kind = match d {
                TypeDescriptor::Leaf { .. } => StepKind::Leaf,
                TypeDescriptor::Array { element, count } => {
                    let en = canonical_name_of(element);
                    proof {
                        assert(children(*d)[0] == **element);
                    }
                    let e = lookup_present(steps, &en, Ghost(done));
                    StepKind::Array { element: e, count: *count }
                },
                TypeDescriptor::Tuple { elements } => {
                    let mut refs: Vec<FieldRef> = Vec::new();
                    let mut j: usize = 0;
                    while j < elements.len()
                        invariant
                            0 <= j <= elements@.len(),
                            refs@.len() == j,
                            tracks(steps@, done),
                            dependencies_done(done, *d),
                            children(*d) == elements@,
                            forall|k: int|
                                0 <= k < j ==> #[trigger] refs@[k].name@ == decimal(k as nat)
                                    && refers(steps@, steps@.len() as int, refs@[k].target, canonical_name(elements@[k])),
                        decreases elements@.len() - j,
                    {
                        let en = canonical_name_of(&elements[j]);
                        let t = lookup_present(steps, &en, Ghost(done));
                        let mut label = String::new();
                        append_decimal(&mut label, j as u64);
                        proof {
                            assert(label@ =~= decimal(j as nat));
                        }
                        refs.push(FieldRef { name: label, target: t });
                        j = j + 1;
                    }
                    StepKind::Struct { fields: refs }
                },
            };
            let ghost before = steps@;
            let ghost k = kind;
            steps.push(Step { name, kind });
            proof {
                let n = before.len() as int;
                assert(steps@[n] == Step { name, kind: k });
                match k {
                    StepKind::Array { element: e, .. } => {
                        assert(steps@[e as int] == before[e as int]);
                    },
                    StepKind::Struct { fields: refs } => {
                        if let TypeDescriptor::Tuple { elements } = d {
                            assert forall|j: int| 0 <= j < refs@.len() implies #[trigger] refs@[j].name@
                                == decimal(j as nat) && refers(
                                steps@,
                                n,
                                refs@[j].target,
                                canonical_name(elements@[j]),
                            ) by {
                                assert(refs@[j].name@ == decimal(j as nat));
                                assert(steps@[refs@[j].target as int] == before[refs@[j].target as int]);
                            }
                        }
                    },
                    StepKind::Leaf => {},
                }
                assert(dedup(nd) == dedup(done).push(it));
                lemma_tracks_extend(before, steps@, done);
                assert(step_realizes(steps@, before.len() as int, it));
                assert forall|i: int| 0 <= i < dedup(nd).len() implies #[trigger] step_realizes(
                    steps@,
                    i,
                    dedup(nd)[i],
                ) by {
                    if i < before.len() {
                        assert(dedup(nd)[i] == dedup(done)[i]);
                    }
                }
            }
        },
    }
}

proof fn lemma_extends_trans(a: Seq<Step>, b: Seq<Step>, c: Seq<Step>)
    requires
        extends(a, b),
        extends(b, c),
    ensures
        extends(a, c),
{
    assert forall|i: int| 0 <= i < a.len() implies #[trigger] c[i] == a[i] by {
        assert(c[i] == b[i]);
    }
}

/// The name under which a `basename[count]` override registers its array.
fn override_name_of(record: &String, field: &String, base: &String) -> (r: String)
    ensures
        r@ == override_name(record@, field@, base@),
{
    proof {
        reveal_strlit("::");
    }
    let mut r = record.clone();
    r.append("::");
    r.append(field.as_str());
    r.append("::");
    r.append(base.as_str());
    assert(r@ =~= override_name(record@, field@, base@));
    r
}

/// Registers the items of one field, and returns the name that the field's
/// entry in the record refers to.
fn plan_field(steps: &mut Vec<Step>, record: &String, f: &FieldDecl, Ghost(done): Ghost<Seq<Item>>) -> (r: String)
    requires
        tracks(old(steps)@, done),
    ensures
        tracks(final(steps)@, done + field_items(record@, *f)),
        extends(old(steps)@, final(steps)@),
        r@ == field_type_name(record@, *f),
        names(done + field_items(record@, *f)).contains(r@),
{
    let ghost items = field_items(record@, *f);
    match &f.type_override {
        None => {
            let w = walk(&f.ty);
            let ghost ws = targets(w@);
            assert(items == ws.map_values(|d: TypeDescriptor| item_of(d)));
            let ghost mut cur = done;
            let mut k: usize = 0;
            while k < w.len()
                invariant
                    0 <= k <= w@.len(),
                    ws == targets(w@),
                    ws == walk_spec(f.ty),
                    items == ws.map_values(|d: TypeDescriptor| item_of(d)),
                    dependencies_first(ws),
                    cur == done + items.take(k as int),
                    tracks(steps@, cur),
                    extends(old(steps)@, steps@),
                decreases w@.len() - k,
            {
                let d: &TypeDescriptor = w[k];
                let name = canonical_name_of(d);
                proof {
                    assert(ws[k as int] == *d);
                    assert forall|c: int| 0 <= c < children(*d).len() implies names(cur).contains(
                        #[trigger] canonical_name(children(*d)[c]),
                    ) by {
                        assert(occurs_before(ws, k as int, children(ws[k as int])[c]));
                        let j = choose|j: int| 0 <= j < k && ws[j] == children(ws[k as int])[c];
                        assert(names(cur)[done.len() + j] == cur[done.len() + j].0);
                        assert(cur[done.len() + j] == items[j]);
                    }
                }
                let ghost s0 = steps@;
                insert_item(steps, name, d, Ghost(cur));
                proof {
                    lemma_extends_trans(old(steps)@, s0, steps@);
                    assert(items[k as int] == (name@, *d));
                    assert(cur.push((name@, *d)) =~= done + items.take(k + 1));
                    cur = cur.push((name@, *d));
                }
                k = k + 1;
            }
            proof {
                assert(items.take(k as int) =~= items);
                lemma_walk_ends_with_self(f.ty);
                lemma_names_push(cur.drop_last(), cur.last());
                assert(cur == cur.drop_last().push(cur.last()));
                lemma_contains_push(names(cur.drop_last()), cur.last().0, cur.last().0);
            }
            canonical_name_of(&f.ty)
        },
        Some(o) => {
            let leaf = TypeDescriptor::Leaf { source_name: o.basename.clone() };
            let ghost it0: Item = (o.basename@, leaf);
            proof {
                assert(children(leaf).len() == 0);
            }
            insert_item(steps, o.basename.clone(), &leaf, Ghost(done));
            proof {
                lemma_names_push(done, it0);
                lemma_contains_push(names(done), o.basename@, o.basename@);
            }
            match o.count {
                None => {
                    assert(done.push(it0) =~= done + items);
                    o.basename.clone()
                },
                Some(n) => {
                    let arr = TypeDescriptor::Array { element: Box::new(leaf), count: n };
                    let ovn = override_name_of(record, &f.name, &o.basename);
                    let ghost it1: Item = (ovn@, arr);
                    proof {
                        assert(children(arr)[0] == leaf);
                    }
                    let ghost s0 = steps@;
                    insert_item(steps, ovn.clone(), &arr, Ghost(done.push(it0)));
                    proof {
                        lemma_extends_trans(old(steps)@, s0, steps@);
                        assert(done.push(it0).push(it1) =~= done + items);
                        lemma_names_push(done.push(it0), it1);
                        lemma_contains_push(names(done.push(it0)), ovn@, ovn@);
                    }
                    ovn
                },
            }
        },
    }
}

/// The position of the first field with an empty name, if any.
fn find_unnamed(fields: &Vec<FieldDecl>) -> (r: Option<usize>)
    ensures
        match r {
            Some(j) => first_unnamed(fields@, j as int),
            None => all_named(fields@),
        },
{
    let mut j: usize = 0;
    while j < fields.len()
        invariant
            0 <= j <= fields@.len(),
            forall|i: int| 0 <= i < j ==> fields@[i].name@.len() > 0,
        decreases fields@.len() - j,
    {
        if fields[j].name.as_str().is_empty() {
            return Some(j);
        }
        j = j + 1;
    }
    None
}

/// Plans the registration of the record `record_name` with the given
/// fields: every distinct type the fields need, dependencies first, then
/// the record, whose fields keep their declaration order. Fails, before
/// anything is planned, on the first field with an empty name.
pub fn synthesize(record_name: &String, fields: &Vec<FieldDecl>) -> (r: Result<Vec<Step>, SynthesisError>)
    ensures
        match r {
            Ok(steps) => all_named(fields@) && is_plan_for(steps@, record_name@, fields@),
            Err(SynthesisError::UnnamedField(j)) => first_unnamed(fields@, j as int),
        },
{
    if let Some(j) = find_unnamed(fields) {
        return Err(SynthesisError::UnnamedField(j));
    }
    let mut steps: Vec<Step> = Vec::new();
    let mut refs: Vec<FieldRef> = Vec::new();
    let ghost mut done: Seq<Item> = Seq::empty();
    let mut j: usize = 0;
    while j < fields.len()
        invariant
            0 <= j <= fields@.len(),
            done == all_items(record_name@, fields@.take(j as int)),
            tracks(steps@, done),
            refs@.len() == j,
            forall|k: int|
                0 <= k < j ==> #[trigger] refs@[k].name@ == fields@[k].name@ && refs@[k].target
                    < steps@.len() && steps@[refs@[k].target as int].name@ == field_type_name(
                    record_name@,
                    fields@[k],
                ),
        decreases fields@.len() - j,
    {
        let f = &fields[j];
        let ghost s0 = steps@;
        let ghost r0 = refs@;
        let target_name = plan_field(&mut steps, record_name, f, Ghost(done));
        proof {
            assert(fields@.take(j + 1).drop_last() =~= fields@.take(j as int));
            assert(fields@.take(j + 1).last() == fields@[j as int]);
            done = done + field_items(record_name@, *f);
        }
        let t = lookup_present(&steps, &target_name, Ghost(done));
        refs.push(FieldRef { name: f.name.clone(), target: t });
        proof {
            assert forall|k: int| 0 <= k < j + 1 implies #[trigger] refs@[k].name@ == fields@[k].name@
                && refs@[k].target < steps@.len() && steps@[refs@[k].target as int].name@
                == field_type_name(record_name@, fields@[k]) by {
                if k < j {
                    assert(refs@[k] == r0[k]);
                    assert(r0[k].name@ == fields@[k].name@);
                    assert(steps@[r0[k].target as int] == s0[r0[k].target as int]);
                }
            }
        }
        j = j + 1;
    }
    let ghost before = steps@;
    let ghost rs = refs;
    steps.push(Step { name: record_name.clone(), kind: StepKind::Struct { fields: refs } });
    proof {
        assert(fields@.take(j as int) =~= fields@);
        let d = dedup(done);
        lemma_dedup_names(done);
        assert(extends(before, steps@));
        lemma_tracks_extend(before, steps@, done);
        assert forall|a: int, b: int| 0 <= a < b < d.len() implies steps@[a].name@ != steps@[b].name@ by {
            assert(step_realizes(before, a, d[a]));
            assert(step_realizes(before, b, d[b]));
            assert(d[a].0 != d[b].0);
        }
        let n = before.len() as int;
        assert(steps@[n].kind == StepKind::Struct { fields: rs });
        assert forall|k: int| 0 <= k < rs@.len() implies #[trigger] rs@[k].name@ == fields@[k].name@
            && refers(steps@, n, rs@[k].target, field_type_name(record_name@, fields@[k])) by {
            assert(rs@[k].name@ == fields@[k].name@);
            assert(steps@[rs@[k].target as int] == before[rs@[k].target as int]);
        }
        assert(record_realized(steps@, record_name@, fields@));
    }
    Ok(steps)
}

} // verus!
