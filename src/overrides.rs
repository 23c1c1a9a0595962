//! The textual form of a field's type override: `basename` or
//! `basename[count]`.
use vstd::prelude::*;

use crate::plan::TypeOverride;

verus! {

/// Why an override text was refused.
#[derive(PartialEq, Eq, Structural, Debug, Clone, Copy)]
pub enum OverrideError {
    /// The text is not an identifier, optionally followed by a bracketed
    /// decimal count.
    Malformed,
    /// The count does not fit in 32 bits.
    CountTooLarge,
}

/// A character that may continue an identifier.
pub open spec fn is_ident_char(c: char) -> bool {
    ('a' <= c && c <= 'z') || ('A' <= c && c <= 'Z') || ('0' <= c && c <= '9') || c == '_'
}

pub open spec fn is_digit(c: char) -> bool {
    '0' <= c && c <= '9'
}

/// A non-empty run of identifier characters that does not start with a digit.
pub open spec fn is_ident(s: Seq<char>) -> bool {
    &&& s.len() > 0
    &&& !is_digit(s[0])
    &&& forall|i: int| 0 <= i < s.len() ==> is_ident_char(#[trigger] s[i])
}

/// A non-empty run of decimal digits.
pub open spec fn is_digits(s: Seq<char>) -> bool {
    &&& s.len() > 0
    &&& forall|i: int| 0 <= i < s.len() ==> is_digit(#[trigger] s[i])
}

/// The number that a run of decimal digits denotes.
pub open spec fn digits_value(s: Seq<char>) -> nat
    decreases s.len(),
{
    if s.len() == 0 {
        0
    } else {
        digits_value(s.drop_last()) * 10 + ((s.last() as nat) - ('0' as nat)) as nat
    }
}

/// The number of identifier characters that `s` starts with.
pub open spec fn ident_prefix_len(s: Seq<char>) -> int
    decreases s.len(),
{
    if s.len() == 0 || !is_ident_char(s[0]) {
        0
    } else {
        1 + ident_prefix_len(s.skip(1))
    }
}

/// What an override text says: its base name and, where it has one, its
/// count; `None` where the text is malformed.
pub open spec fn override_parse(s: Seq<char>) -> Option<(Seq<char>, Option<nat>)> {
    let k = ident_prefix_len(s);
    let base = s.take(k);
    let rest = s.skip(k);
    if !is_ident(base) {
        None
    } else if rest.len() == 0 {
        Some((base, None))
    } else if rest.len() >= 3 && rest[0] == '[' && rest.last() == ']' && is_digits(
        rest.subrange(1, rest.len() - 1),
    ) {
        Some((base, Some(digits_value(rest.subrange(1, rest.len() - 1)))))
    } else {
        None
    }
}

proof fn lemma_ident_prefix_from(s: Seq<char>, k: int)
    requires
        0 <= k <= s.len(),
        forall|i: int| 0 <= i < k ==> is_ident_char(#[trigger] s[i]),
        k < s.len() ==> !is_ident_char(s[k]),
    ensures
        ident_prefix_len(s) == k,
    decreases s.len(),
{
    if s.len() > 0 && is_ident_char(s[0]) {
        let t = s.skip(1);
        assert forall|i: int| 0 <= i < k - 1 implies is_ident_char(#[trigger] t[i]) by {
            assert(t[i] == s[i + 1]);
        }
        if k - 1 < t.len() {
            assert(t[k - 1] == s[k]);
        }
        lemma_ident_prefix_from(t, k - 1);
    }
}

fn ident_char(c: char) -> (r: bool)
    ensures
        r == is_ident_char(c),
{
    ('a' <= c && c <= 'z') || ('A' <= c && c <= 'Z') || ('0' <= c && c <= '9') || c == '_'
}

/// Reads an override text of the form `basename` or `basename[count]`.
pub fn parse_override(text: &str) -> (r: Result<TypeOverride, OverrideError>)
    ensures
        match r {
            Ok(o) => override_parse(text@) == Some(
                (
                    o.basename@,
                    match o.count {
                        None => None,
                        Some(n) => Some(n as nat),
                    },
                ),
            ),
            Err(OverrideError::Malformed) => override_parse(text@) is None,
            Err(OverrideError::CountTooLarge) => match override_parse(text@) {
                Some((_, Some(n))) => n > u32::MAX,
                _ => false,
            },
        },
{
    let ghost s = text@;
    let len = text.unicode_len();
    let mut k: usize = 0;
    while k < len && ident_char(text.get_char(k))
        invariant
            s == text@,
            len == s.len(),
            0 <= k <= len,
            forall|i: int| 0 <= i < k ==> is_ident_char(#[trigger] s[i]),
        decreases len - k,
    {
        k = k + 1;
    }
    proof {
        lemma_ident_prefix_from(s, k as int);
    }
    let ghost base = s.take(k as int);
    let ghost rest = s.skip(k as int);
    if k == 0 {
        assert(base.len() == 0);
        return Err(OverrideError::Malformed);
    }
    let first = text.get_char(0);
    if '0' <= first && first <= '9' {
        assert(base[0] == first);
        return Err(OverrideError::Malformed);
    }
    assert(is_ident(base)) by {
        assert forall|i: int| 0 <= i < base.len() implies is_ident_char(#[trigger] base[i]) by {
            assert(base[i] == s[i]);
        }
    }
    let basename = String::from_str(text.substring_char(0, k));
    if k == len {
        return Ok(TypeOverride { basename, count: None });
    }
    if len - k < 3 || text.get_char(k) != '[' || text.get_char(len - 1) != ']' {
        assert(rest[0] == s[k as int]);
        assert(rest.last() == s[len - 1]);
        return Err(OverrideError::Malformed);
    }
    assert(rest[0] == s[k as int]);
    assert(rest.last() == s[len - 1]);
    let ghost digits = rest.subrange(1, rest.len() - 1);
    let mut value: u64 = 0;
    let mut too_large = false;
    let mut i: usize = k + 1;
    while i < len - 1
        invariant
            s == text@,
            len == s.len(),
            k + 1 <= i <= len - 1,
            digits == s.subrange(k + 1, len - 1),
            ident_prefix_len(s) == k,
            is_ident(s.take(k as int)),
            rest == s.skip(k as int),
            digits == rest.subrange(1, rest.len() - 1),
            rest.len() >= 3 && rest[0] == '[' && rest.last() == ']',
            value <= u32::MAX,
            forall|j: int| 0 <= j < i - (k + 1) ==> is_digit(#[trigger] digits[j]),
            !too_large ==> value as nat == digits_value(digits.take(i - (k + 1))),
            too_large ==> digits_value(digits.take(i - (k + 1))) > u32::MAX,
        decreases len - 1 - i,
    {
        let c = text.get_char(i);
        assert(c == digits[i - (k + 1)]);
        if !('0' <= c && c <= '9') {
            assert(!is_digits(digits));
            return Err(OverrideError::Malformed);
        }
        let ghost pre = digits.take(i - (k + 1));
        if !too_large {
            let next = value * 10 + (c as u64 - '0' as u64);
            if next > u32::MAX as u64 {
                too_large = true;
            } else {
                value = next;
            }
        }
        i = i + 1;
        assert(digits.take(i - (k + 1)).drop_last() =~= pre);
    }
    assert(digits.take(digits.len() as int) =~= digits);
    if too_large {
        return Err(OverrideError::CountTooLarge);
    }
    Ok(TypeOverride { basename, count: Some(value as u32) })
}

} // verus!
