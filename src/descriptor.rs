//! Type descriptors and their canonical names.
use vstd::prelude::*;

verus! {

/// One node of a type graph: a leaf known to the catalog by name, a
/// fixed-length array, or a tuple of heterogeneous elements.
pub enum TypeDescriptor {
    Leaf { source_name: String },
    Array { element: Box<TypeDescriptor>, count: u32 },
    Tuple { elements: Vec<TypeDescriptor> },
}

/// The character of a decimal digit.
pub open spec fn digit_char(d: nat) -> char {
    if d == 0 { '0' }
    else if d == 1 { '1' }
    else if d == 2 { '2' }
    else if d == 3 { '3' }
    else if d == 4 { '4' }
    else if d == 5 { '5' }
    else if d == 6 { '6' }
    else if d == 7 { '7' }
    else if d == 8 { '8' }
    else { '9' }
}

/// The decimal notation of `n`, without leading zeros.
pub open spec fn decimal(n: nat) -> Seq<char>
    decreases n,
{
    if n < 10 {
        seq![digit_char(n)]
    } else {
        decimal(n / 10).push(digit_char(n % 10))
    }
}

/// The catalog's lookup key for a type: a leaf by its own name, an array as
/// `[element; count]`, a tuple as `(a, b)`, with `(a,)` for one element.
pub open spec fn canonical_name(t: TypeDescriptor) -> Seq<char>
    decreases t,
{
    match t {
        TypeDescriptor::Leaf { source_name } => source_name@,
        TypeDescriptor::Array { element, count } =>
            seq!['['] + canonical_name(*element) + seq![';', ' '] + decimal(count as nat) + seq![']'],
        TypeDescriptor::Tuple { elements } =>
            if elements@.len() == 1 {
                seq!['('] + canonical_name(elements@[0]) + seq![',', ')']
            } else {
                seq!['('] + joined_names(elements@, elements@.len() as int) + seq![')']
            },
    }
}

/// The canonical names of `elems[..n]`, separated by `", "`.
pub open spec fn joined_names(elems: Seq<TypeDescriptor>, n: int) -> Seq<char>
    decreases elems, n,
{
    if n <= 0 || n > elems.len() {
        Seq::empty()
    } else if n == 1 {
        canonical_name(elems[0])
    } else {
        joined_names(elems, n - 1) + seq![',', ' '] + canonical_name(elems[n - 1])
    }
}

/// Canonical naming depends on shape alone: two arrays whose elements have
/// the same canonical name and whose counts are equal have the same
/// canonical name, `[element; count]`, however their elements were built.
pub proof fn lemma_array_name_by_shape(a: TypeDescriptor, b: TypeDescriptor)
    requires
        a is Array,
        b is Array,
        canonical_name(*a->Array_element) == canonical_name(*b->Array_element),
        a->Array_count == b->Array_count,
    ensures
        canonical_name(a) == canonical_name(b),
        canonical_name(a) == seq!['['] + canonical_name(*a->Array_element) + seq![';', ' '] + decimal(
            a->Array_count as nat,
        ) + seq![']'],
{
}

fn digit_str(d: u64) -> (r: &'static str)
    requires
        d < 10,
    ensures
        r@ == seq![digit_char(d as nat)],
{
    proof {
        reveal_strlit("0");
        reveal_strlit("1");
        reveal_strlit("2");
        reveal_strlit("3");
        reveal_strlit("4");
        reveal_strlit("5");
        reveal_strlit("6");
        reveal_strlit("7");
        reveal_strlit("8");
        reveal_strlit("9");
    }
    if d == 0 { "0" }
    else if d == 1 { "1" }
    else if d == 2 { "2" }
    else if d == 3 { "3" }
    else if d == 4 { "4" }
    else if d == 5 { "5" }
    else if d == 6 { "6" }
    else if d == 7 { "7" }
    else if d == 8 { "8" }
    else { "9" }
}

/// Appends the decimal notation of `n` to `out`.
pub fn append_decimal(out: &mut String, n: u64)
    ensures
        final(out)@ == old(out)@ + decimal(n as nat),
    decreases n,
{
    if n < 10 {
        out.append(digit_str(n));
    } else {
        append_decimal(out, n / 10);
        out.append(digit_str(n % 10));
        assert(final(out)@ =~= old(out)@ + decimal(n as nat));
    }
}

fn append_literal(out: &mut String, s: &str)
    ensures
        final(out)@ == old(out)@ + s@,
{
    out.append(s);
}

/// Appends the canonical name of `t` to `out`.
pub fn append_canonical_name(out: &mut String, t: &TypeDescriptor)
    ensures
        final(out)@ == old(out)@ + canonical_name(*t),
    decreases t,
{
    proof {
        reveal_strlit("[");
        reveal_strlit("; ");
        reveal_strlit("]");
        reveal_strlit("(");
        reveal_strlit(",)");
        reveal_strlit(", ");
        reveal_strlit(")");
    }
    match t {
        TypeDescriptor::Leaf { source_name } => {
            out.append(source_name.as_str());
        },
        TypeDescriptor::Array { element, count } => {
            out.append("[");
            append_canonical_name(out, element);
            out.append("; ");
            append_decimal(out, *count as u64);
            out.append("]");
            assert(final(out)@ =~= old(out)@ + canonical_name(*t));
        },
        TypeDescriptor::Tuple { elements } => {
            out.append("(");
            if elements.len() == 1 {
                append_canonical_name(out, &elements[0]);
                out.append(",)");
            } else {
                let ghost start = out@;
                let mut i: usize = 0;
                while i < elements.len()
                    invariant
                        0 <= i <= elements@.len(),
                        elements@.len() != 1,
                        *t == (TypeDescriptor::Tuple { elements: *elements }),
                        out@ == start + joined_names(elements@, i as int),
                    decreases elements@.len() - i,
                {
                    proof {
                        reveal_strlit(", ");
                        assert(decreases_to!(*t => t->elements));
                        assert(decreases_to!(t->elements => t->elements@));
                        assert(decreases_to!(t->elements@ => t->elements@[i as int]));
                    }
                    if i > 0 {
                        out.append(", ");
                    }
                    append_canonical_name(out, &elements[i]);
                    i = i + 1;
                    assert(out@ =~= start + joined_names(elements@, i as int));
                }
                out.append(")");
            }
            assert(final(out)@ =~= old(out)@ + canonical_name(*t));
        },
    }
}

/// The canonical name of `t`.
pub fn canonical_name_of(t: &TypeDescriptor) -> (r: String)
    ensures
        r@ == canonical_name(*t),
{
    let mut r = String::new();
    append_canonical_name(&mut r, t);
    assert(r@ =~= canonical_name(*t));
    r
}

} // verus!
