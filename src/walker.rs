//! Depth-first, post-order decomposition of a type into the list of types
//! that must be registered, dependencies first.
use vstd::prelude::*;

use crate::descriptor::TypeDescriptor;

verus! {

/// The direct constituents of a type: an array's element, a tuple's
/// elements, nothing for a leaf.
pub open spec fn children(t: TypeDescriptor) -> Seq<TypeDescriptor> {
    match t {
        TypeDescriptor::Leaf { .. } => Seq::empty(),
        TypeDescriptor::Array { element, .. } => seq![*element],
        TypeDescriptor::Tuple { elements } => elements@,
    }
}

/// The post-order walk of `t`: the walks of its constituents, in order,
/// followed by `t` itself.
pub open spec fn walk_spec(t: TypeDescriptor) -> Seq<TypeDescriptor>
    decreases t,
{
    match t {
        TypeDescriptor::Leaf { .. } => seq![t],
        TypeDescriptor::Array { element, .. } => walk_spec(*element).push(t),
        TypeDescriptor::Tuple { elements } => walk_all(elements@, elements@.len() as int).push(t),
    }
}

/// The walks of `elems[..n]`, one after the other.
pub open spec fn walk_all(elems: Seq<TypeDescriptor>, n: int) -> Seq<TypeDescriptor>
    decreases elems, n,
{
    if n <= 0 || n > elems.len() {
        Seq::empty()
    } else {
        walk_all(elems, n - 1) + walk_spec(elems[n - 1])
    }
}

/// `x` occurs in `s` before position `k`.
pub open spec fn occurs_before(s: Seq<TypeDescriptor>, k: int, x: TypeDescriptor) -> bool {
    exists|j: int| 0 <= j < k && s[j] == x
}

/// Every constituent of an entry of `s` occurs in `s` before that entry.
pub open spec fn dependencies_first(s: Seq<TypeDescriptor>) -> bool {
    forall|k: int, c: int|
        #![trigger children(s[k])[c]]
        0 <= k < s.len() && 0 <= c < children(s[k]).len() ==> occurs_before(s, k, children(s[k])[c])
}

proof fn lemma_dependencies_first_concat(a: Seq<TypeDescriptor>, b: Seq<TypeDescriptor>)
    requires
        dependencies_first(a),
        dependencies_first(b),
    ensures
        dependencies_first(a + b),
{
    let s = a + b;
    assert forall|k: int, c: int|
        #![trigger children(s[k])[c]]
        0 <= k < s.len() && 0 <= c < children(s[k]).len() implies occurs_before(s, k, children(s[k])[c]) by {
        if k < a.len() {
            assert(s[k] == a[k]);
            assert(children(a[k])[c] == children(s[k])[c]);
            let j = choose|j: int| #![trigger a[j]] 0 <= j < k && a[j] == children(a[k])[c];
            assert(s[j] == a[j]);
        } else {
            let kb = k - a.len();
            assert(s[k] == b[kb]);
            assert(children(b[kb])[c] == children(s[k])[c]);
            let j = choose|j: int| #![trigger b[j]] 0 <= j < kb && b[j] == children(b[kb])[c];
            assert(s[j + a.len()] == b[j]);
        }
    }
}

/// The walk of a type ends with the type itself.
pub proof fn lemma_walk_ends_with_self(t: TypeDescriptor)
    ensures
        walk_spec(t).len() > 0,
        walk_spec(t).last() == t,
{
}

proof fn lemma_walk_all_contains(elems: Seq<TypeDescriptor>, n: int, i: int)
    requires
        0 <= i < n <= elems.len(),
    ensures
        exists|j: int| 0 <= j < walk_all(elems, n).len() && walk_all(elems, n)[j] == elems[i],
    decreases n,
{
    let w = walk_all(elems, n);
    if i == n - 1 {
        lemma_walk_ends_with_self(elems[i]);
        let p = walk_all(elems, n - 1);
        assert(w[w.len() - 1] == elems[i]);
    } else {
        lemma_walk_all_contains(elems, n - 1, i);
        let p = walk_all(elems, n - 1);
        let j = choose|j: int| 0 <= j < p.len() && p[j] == elems[i];
        assert(w[j] == elems[i]);
    }
}

proof fn lemma_walk_all_dependencies_first(elems: Seq<TypeDescriptor>, n: int)
    requires
        forall|i: int| 0 <= i < elems.len() ==> dependencies_first(#[trigger] walk_spec(elems[i])),
    ensures
        dependencies_first(walk_all(elems, n)),
    decreases n,
{
    if n <= 0 || n > elems.len() {
    } else {
        lemma_walk_all_dependencies_first(elems, n - 1);
        lemma_dependencies_first_concat(walk_all(elems, n - 1), walk_spec(elems[n - 1]));
    }
}

/// Ordering of the walk: every array element and every tuple element occurs
/// before the type that contains it, so that registering the walk front to
/// back registers each dependency before its dependents; the walk ends with
/// the type itself.
pub proof fn lemma_walk_dependencies_first(t: TypeDescriptor)
    ensures
        dependencies_first(walk_spec(t)),
        walk_spec(t).last() == t,
    decreases t,
{
    let w = walk_spec(t);
    match t {
        TypeDescriptor::Leaf { .. } => {
            assert(w[0] == t);
            assert(children(w[0]).len() == 0);
        },
        TypeDescriptor::Array { element, .. } => {
            lemma_walk_dependencies_first(*element);
            let p = walk_spec(*element);
            assert forall|k: int, c: int|
                #![trigger children(w[k])[c]]
                0 <= k < w.len() && 0 <= c < children(w[k]).len() implies occurs_before(w, k, children(w[k])[c]) by {
                if k < p.len() {
                    assert(w[k] == p[k]);
                    assert(children(p[k])[c] == children(w[k])[c]);
                    let j = choose|j: int| #![trigger p[j]] 0 <= j < k && p[j] == children(p[k])[c];
                    assert(w[j] == p[j]);
                } else {
                    assert(w[p.len() - 1] == *element);
                }
            }
        },
        TypeDescriptor::Tuple { elements } => {
            assert forall|i: int| 0 <= i < elements@.len() implies dependencies_first(
                #[trigger] walk_spec(elements@[i]),
            ) by {
                assert(decreases_to!(t => elements@[i]));
                lemma_walk_dependencies_first(elements@[i]);
            }
            let n = elements@.len() as int;
            lemma_walk_all_dependencies_first(elements@, n);
            let p = walk_all(elements@, n);
            assert forall|k: int, c: int|
                #![trigger children(w[k])[c]]
                0 <= k < w.len() && 0 <= c < children(w[k]).len() implies occurs_before(w, k, children(w[k])[c]) by {
                if k < p.len() {
                    assert(w[k] == p[k]);
                    assert(children(p[k])[c] == children(w[k])[c]);
                    let j = choose|j: int| #![trigger p[j]] 0 <= j < k && p[j] == children(p[k])[c];
                    assert(w[j] == p[j]);
                } else {
                    lemma_walk_all_contains(elements@, n, c);
                    let j = choose|j: int| 0 <= j < p.len() && p[j] == elements@[c];
                    assert(w[j] == p[j]);
                }
            }
        },
    }
}

/// The descriptors that a sequence of references points to.
pub open spec fn targets(s: Seq<&TypeDescriptor>) -> Seq<TypeDescriptor> {
    s.map_values(|d: &TypeDescriptor| *d)
}

/// Appends the post-order walk of `ty` to `set`.
pub fn add_type<'a>(ty: &'a TypeDescriptor, set: &mut Vec<&'a TypeDescriptor>)
    ensures
        targets(final(set)@) == targets(old(set)@) + walk_spec(*ty),
    decreases ty,
{
    match ty {
        TypeDescriptor::Array { element, .. } => {
            add_type(element, set);
        },
        TypeDescriptor::Tuple { elements } => {
            let ghost start = targets(set@);
            let mut i: usize = 0;
            while i < elements.len()
                invariant
                    0 <= i <= elements@.len(),
                    *ty == (TypeDescriptor::Tuple { elements: *elements }),
                    targets(set@) == start + walk_all(elements@, i as int),
                decreases elements@.len() - i,
            {
                proof {
                    assert(decreases_to!(*ty => ty->elements));
                    assert(decreases_to!(ty->elements => ty->elements@));
                    assert(decreases_to!(ty->elements@ => ty->elements@[i as int]));
                }
                add_type(&elements[i], set);
                i = i + 1;
                assert(targets(set@) =~= start + walk_all(elements@, i as int));
            }
        },
        TypeDescriptor::Leaf { .. } => {},
    }
    let ghost before = set@;
    set.push(ty);
    assert(targets(set@) =~= targets(before).push(*ty));
    assert(targets(final(set)@) =~= targets(old(set)@) + walk_spec(*ty));
}

/// The post-order walk of `ty`: its constituents, innermost first, then `ty`.
pub fn walk<'a>(ty: &'a TypeDescriptor) -> (r: Vec<&'a TypeDescriptor>)
    ensures
        targets(r@) == walk_spec(*ty),
        dependencies_first(targets(r@)),
{
    let mut r = Vec::new();
    add_type(ty, &mut r);
    assert(targets(Seq::<&TypeDescriptor>::empty()) =~= Seq::empty());
    assert(targets(r@) =~= walk_spec(*ty));
    proof {
        lemma_walk_dependencies_first(*ty);
    }
    r
}

} // verus!
