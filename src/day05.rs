use crate::text::{chars_of, trim_bounds, trim_of, trimmed};
use vstd::prelude::*;

verus! {

/// The lower-case form of a character, as `char::to_lowercase` gives it.
pub uninterp spec fn lower_of(c: char) -> Seq<char>;

/// Relies on `char::to_lowercase`: the lower-case form of a character, which
/// depends on the character alone.
#[verifier::external_body]
fn lowercase(c: char) -> (r: String)
    ensures
        r@ == lower_of(c),
{
    c.to_lowercase().collect()
}

/// Two units react: different characters with one lower-case form.
pub open spec fn reacts(a: char, b: char) -> bool {
    a != b && lower_of(a) == lower_of(b)
}

pub fn react(a: char, b: char) -> (r: bool)
    ensures
        r == reacts(a, b),
{
    let la = lowercase(a);
    let lb = lowercase(b);
    a != b && la == lb
}

/// Two units are of the same type: one lower-case form.
pub open spec fn same_type(a: char, b: char) -> bool {
    lower_of(a) == lower_of(b)
}

pub fn same_kind(a: char, b: char) -> (r: bool)
    ensures
        r == same_type(a, b),
{
    let la = lowercase(a);
    let lb = lowercase(b);
    la == lb
}

/// The polymer left once every reacting pair is gone, the units taken
/// from left to right.
pub open spec fn reduced(s: Seq<char>) -> Seq<char>
    decreases s.len(),
{
    if s.len() == 0 {
        seq![]
    } else {
        let r = reduced(s.drop_last());
        if r.len() > 0 && reacts(r.last(), s.last()) {
            r.drop_last()
        } else {
            r.push(s.last())
        }
    }
}

/// No two neighbouring units react.
pub open spec fn inert(s: Seq<char>) -> bool {
    forall|i: int| 0 <= i < s.len() - 1 ==> !reacts(#[trigger] s[i], s[i + 1])
}

/// A fully reduced polymer has no reacting neighbours.
pub proof fn lemma_reduced_inert(s: Seq<char>)
    ensures
        inert(reduced(s)),
    decreases s.len(),
{
    if s.len() > 0 {
        lemma_reduced_inert(s.drop_last());
        let r = reduced(s.drop_last());
        if r.len() > 0 && reacts(r.last(), s.last()) {
            assert forall|i: int| 0 <= i < r.len() - 2 implies !reacts(#[trigger] r.drop_last()[i], r.drop_last()[i + 1]) by {
                assert(r.drop_last()[i] == r[i]);
                assert(r.drop_last()[i + 1] == r[i + 1]);
            };
        } else {
            let t = r.push(s.last());
            assert forall|i: int| 0 <= i < t.len() - 1 implies !reacts(#[trigger] t[i], t[i + 1]) by {
                if i < r.len() - 1 {
                    assert(t[i] == r[i] && t[i + 1] == r[i + 1]);
                }
            };
        }
    }
}

/// The units of `s` that are not of the type of `unit`.
pub open spec fn without(s: Seq<char>, unit: char) -> Seq<char> {
    s.filter(|c: char| !same_type(c, unit))
}

/// The polymer after dropping every unit of the type of `remove`, if given,
/// and letting all reactions run.
pub fn reduce(input: &Vec<char>, remove: Option<char>) -> (r: Vec<char>)
    ensures
        r@ == reduced(match remove {
            Some(u) => without(input@, u),
            None => input@,
        }),
        inert(r@),
{
    let ghost kept: Seq<char> = seq![];
    let mut stack: Vec<char> = Vec::new();
    let mut i: usize = 0;
    while i < input.len()
        invariant
            i <= input@.len(),
            kept == (match remove {
                Some(u) => without(input@.subrange(0, i as int), u),
                None => input@.subrange(0, i as int),
            }),
            stack@ == reduced(kept),
        decreases input@.len() - i,
    {
        let c = input[i];
        let ghost prefix = input@.subrange(0, i as int + 1);
        proof {
            assert(prefix.drop_last() =~= input@.subrange(0, i as int));
            assert(prefix.last() == c);
        }
        let keep = match remove {
            Some(u) => !same_kind(c, u),
            None => true,
        };
        if keep {
            proof {
                let old_kept = kept;
                kept = kept.push(c);
                assert(kept.drop_last() =~= old_kept);
                assert(kept.last() == c);
            }
            let n = stack.len();
            if n > 0 && react(stack[n - 1], c) {
                stack.pop();
            } else {
                stack.push(c);
            }
        }
        proof {
            match remove {
                Some(u) => {
                    reveal(Seq::filter);
                    assert(without(prefix, u) == kept);
                },
                None => {
                    assert(kept =~= prefix);
                },
            }
        }
        i = i + 1;
    }
    proof {
        assert(input@.subrange(0, i as int) =~= input@);
        lemma_reduced_inert(kept);
    }
    stack
}

/// The length of the fully reacted polymer, white space trimmed.
pub fn star_one(input: &str) -> (r: usize)
    ensures
        exists|a: int, b: int| trimmed(reduced(input@), a, b) && r == b - a,
{
    let chars = chars_of(input);
    let result = reduce(&chars, None);
    let (a, b) = trim_bounds(&result);
    b - a
}

/// The shortest polymer reachable by first taking out every unit of one
/// type `a` to `z`, white space trimmed from input and result.
pub fn star_two(input: &str) -> (r: usize)
    ensures
        exists|a: int, b: int, u: char| 'a' <= u <= 'z' && trimmed(
            reduced(without(trim_of(input@), u)),
            a,
            b,
        ) && r == b - a,
        forall|u: char, a: int, b: int|
            'a' <= u <= 'z' && trimmed(reduced(without(trim_of(input@), u)), a, b) ==> r <= b - a,
{
    let chars = chars_of(input);
    let (a0, b0) = trim_bounds(&chars);
    let mut core: Vec<char> = Vec::new();
    let mut i: usize = a0;
    while i < b0
        invariant
            trimmed(chars@, a0 as int, b0 as int),
            a0 <= i <= b0,
            core@ == chars@.subrange(a0 as int, i as int),
        decreases b0 - i,
    {
        core.push(chars[i]);
        proof {
            assert(chars@.subrange(a0 as int, i as int + 1) =~= chars@.subrange(a0 as int, i as int).push(chars@[i as int]));
        }
        i = i + 1;
    }
    proof {
        crate::text::lemma_trim_of(input@, a0 as int, b0 as int);
    }
    let mut best: usize = 0;
    let mut found = false;
    let mut u: char = 'a';
    let mut k: u32 = 0;
    while k < 26
        invariant
            core@ == trim_of(input@),
            k <= 26,
            found == (k > 0),
            k > 0 ==> exists|a: int, b: int, v: char| 'a' <= v <= 'z' && trimmed(
                reduced(without(core@, v)),
                a,
                b,
            ) && best == b - a,
            forall|v: char, a: int, b: int|
                'a' <= v < ('a' as u32 + k) as char && 'a' <= v <= 'z' && trimmed(reduced(without(core@, v)), a, b) ==> best <= b - a,
        decreases 26 - k,
    {
        let unit = letter(k);
        let result = reduce(&core, Some(unit));
        let (a, b) = trim_bounds(&result);
        if !found || b - a < best {
            best = b - a;
        }
        proof {
            assert forall|v: char, a2: int, b2: int|
                'a' <= v < ('a' as u32 + k + 1) as char && 'a' <= v <= 'z' && trimmed(reduced(without(core@, v)), a2, b2) implies best <= b2 - a2 by {
                if v == unit {
                    crate::text::lemma_trimmed_unique(result@, a as int, b as int, a2, b2);
                }
            };
        }
        found = true;
        k = k + 1;
    }
    best
}

/// The `k`-th lower-case letter.
pub fn letter(k: u32) -> (r: char)
    requires
        k < 26,
    ensures
        r as u32 == 'a' as u32 + k,
        'a' <= r <= 'z',
{
    let letters = ['a', 'b', 'c', 'd', 'e', 'f', 'g', 'h', 'i', 'j', 'k', 'l', 'm', 'n', 'o', 'p', 'q', 'r', 's', 't', 'u', 'v', 'w', 'x', 'y', 'z'];
    letters[k as usize]
}

} // verus!
