use crate::text::{chars_of, pieces, split, views};
use std::collections::HashSet;
use vstd::prelude::*;

verus! {

/// The value of a run of decimal digits.
pub open spec fn digits_value(s: Seq<char>) -> int
    decreases s.len(),
{
    if s.len() == 0 {
        0
    } else {
        10 * digits_value(s.drop_last()) + (s.last() as u32 - '0' as u32)
    }
}

pub open spec fn all_digits(s: Seq<char>) -> bool {
    forall|i: int| 0 <= i < s.len() ==> '0' <= #[trigger] s[i] <= '9'
}

/// The number a token spells: an optional sign, then at least one digit.
pub open spec fn token_value(t: Seq<char>) -> Option<int> {
    if t.len() > 0 && (t[0] == '+' || t[0] == '-') {
        let rest = t.subrange(1, t.len() as int);
        if rest.len() > 0 && all_digits(rest) {
            Some(if t[0] == '-' { -digits_value(rest) } else { digits_value(rest) })
        } else {
            None
        }
    } else if t.len() > 0 && all_digits(t) {
        Some(digits_value(t))
    } else {
        None
    }
}

/// The tokens of the input that are kept: those longer than one character.
pub open spec fn kept_tokens(s: Seq<char>) -> Seq<Seq<char>> {
    pieces(s, true).filter(|t: Seq<char>| t.len() > 1)
}

/// The values of the kept tokens, if every one is a number that fits.
pub open spec fn values_of(tokens: Seq<Seq<char>>) -> Option<Seq<i64>>
    decreases tokens.len(),
{
    if tokens.len() == 0 {
        Some(seq![])
    } else {
        match (values_of(tokens.drop_last()), token_value(tokens.last())) {
            (Some(vs), Some(v)) => if i64::MIN <= v <= i64::MAX {
                Some(vs.push(v as i64))
            } else {
                None
            },
            _ => None,
        }
    }
}

/// Reads a signed number, `None` if the token is not one or does not fit.
pub fn read_number(t: &Vec<char>) -> (r: Option<i64>)
    ensures
        r == (match token_value(t@) {
            Some(v) => if i64::MIN <= v <= i64::MAX { Some(v as i64) } else { None },
            None => None,
        }),
{
    let n = t.len();
    if n == 0 {
        return None;
    }
    let negative = t[0] == '-';
    let start: usize = if t[0] == '+' || t[0] == '-' { 1 } else { 0 };
    if start == n {
        assert(t@.subrange(1, t@.len() as int).len() == 0);
        return None;
    }
    let ghost rest = t@.subrange(start as int, n as int);
    proof {
        if start == 0 {
            assert(rest =~= t@);
        }
    }
    let mut value: i64 = 0;
    let mut i: usize = start;
    while i < n
        invariant
            start <= i <= n,
            n == t@.len(),
            start < n,
            rest == t@.subrange(start as int, n as int),
            start <= 1,
            start == 0 ==> rest == t@ && t@[0] != '+' && t@[0] != '-',
            start == 1 ==> t@[0] == '+' || t@[0] == '-',
            all_digits(t@.subrange(start as int, i as int)),
            negative ==> value == -digits_value(t@.subrange(start as int, i as int)),
            !negative ==> value == digits_value(t@.subrange(start as int, i as int)),
            negative == (t@[0] == '-'),
        decreases n - i,
    {
        let c = t[i];
        let ghost before = t@.subrange(start as int, i as int);
        let ghost after = t@.subrange(start as int, i as int + 1);
        proof {
            assert(after.drop_last() =~= before);
            assert(after.last() == c);
        }
        if c < '0' || c > '9' {
            proof {
                assert(!all_digits(rest)) by {
                    assert(rest[i - start] == c);
                };
                if start == 0 {
                    assert(!all_digits(t@));
                } else {
                    assert(t@.subrange(1, t@.len() as int) == rest);
                }
                assert(token_value(t@) is None);
            }
            return None;
        }
        let d = (c as u32 - '0' as u32) as i64;
        let next = if negative {
            match value.checked_mul(10) {
                Some(m) => m.checked_sub(d),
                None => None,
            }
        } else {
            match value.checked_mul(10) {
                Some(m) => m.checked_add(d),
                None => None,
            }
        };
        match next {
            None => {
                proof {
                    assert('0' <= c <= '9');
                    assert forall|j: int| 0 <= j < after.len() implies '0' <= #[trigger] after[j] <= '9' by {
                        if j < before.len() {
                            assert(after[j] == before[j]);
                        }
                    };
                    if all_digits(rest) {
                        lemma_digits_value_grows(rest, (i - start + 1) as nat);
                        assert(rest.subrange(0, (i - start + 1) as int) =~= after);
                        lemma_digits_nonneg(before);
                        assert(digits_value(after) == 10 * digits_value(before) + d);
                        if negative {
                            assert(-digits_value(after) < i64::MIN);
                            assert(-digits_value(rest) < i64::MIN);
                        } else {
                            assert(digits_value(after) > i64::MAX);
                            assert(digits_value(rest) > i64::MAX);
                        }
                        if start == 0 {
                            assert(all_digits(t@));
                        } else {
                            assert(t@.subrange(1, t@.len() as int) == rest);
                        }
                    }
                }
                return None;
            },
            Some(v) => {
                value = v;
            },
        }
        proof {
            assert forall|j: int| 0 <= j < after.len() implies '0' <= #[trigger] after[j] <= '9' by {
                if j < before.len() {
                    assert(after[j] == before[j]);
                }
            };
        }
        i = i + 1;
    }
    proof {
        assert(t@.subrange(start as int, i as int) =~= rest);
    }
    Some(value)
}

/// Once a digit prefix of a number is too large, so is the whole.
pub proof fn lemma_digits_value_grows(s: Seq<char>, k: nat)
    requires
        k <= s.len(),
        all_digits(s),
    ensures
        digits_value(s) >= digits_value(s.subrange(0, k as int)) >= 0,
    decreases s.len(),
{
    if s.len() > k {
        let d = s.drop_last();
        assert forall|i: int| 0 <= i < d.len() implies '0' <= #[trigger] d[i] <= '9' by {
            assert(d[i] == s[i]);
        };
        lemma_digits_value_grows(d, k);
        assert(d.subrange(0, k as int) =~= s.subrange(0, k as int));
    } else {
        assert(s.subrange(0, k as int) =~= s);
        lemma_digits_nonneg(s);
    }
}

pub proof fn lemma_digits_nonneg(s: Seq<char>)
    requires
        all_digits(s),
    ensures
        digits_value(s) >= 0,
    decreases s.len(),
{
    if s.len() > 0 {
        let d = s.drop_last();
        assert forall|i: int| 0 <= i < d.len() implies '0' <= #[trigger] d[i] <= '9' by {
            assert(d[i] == s[i]);
        };
        lemma_digits_nonneg(d);
    }
}

/// The frequency changes: the tokens between commas and white space that
/// are longer than one character, each read as a signed number. `None` if
/// one is not a number that fits an `i64`.
pub fn parse(input: &str) -> (r: Option<Vec<i64>>)
    ensures
        r matches Some(v) ==> values_of(kept_tokens(input@)) == Some(v@),
        r is None ==> values_of(kept_tokens(input@)) is None,
{
    let chars = chars_of(input);
    let tokens = split(&chars, true);
    let ghost all = views(tokens@);
    let mut values: Vec<i64> = Vec::new();
    let mut i: usize = 0;
    while i < tokens.len()
        invariant
            all == views(tokens@),
            all == pieces(input@, true),
            i <= tokens@.len(),
            values_of(all.subrange(0, i as int).filter(|t: Seq<char>| t.len() > 1)) == Some(values@),
        decreases tokens@.len() - i,
    {
        let ghost pre = all.subrange(0, i as int);
        let ghost next = all.subrange(0, i as int + 1);
        proof {
            assert(next.drop_last() =~= pre);
            assert(next.last() == tokens@[i as int]@);
            reveal(Seq::filter);
        }
        let ghost fp = pre.filter(|t: Seq<char>| t.len() > 1);
        if tokens[i].len() > 1 {
            proof {
                assert(next.filter(|t: Seq<char>| t.len() > 1) == fp.push(tokens@[i as int]@));
                assert(fp.push(tokens@[i as int]@).drop_last() =~= fp);
            }
            match read_number(&tokens[i]) {
                None => {
                    proof {
                        lemma_values_none_extends(all, i as int + 1);
                    }
                    return None;
                },
                Some(v) => {
                    values.push(v);
                },
            }
        } else {
            proof {
                assert(next.filter(|t: Seq<char>| t.len() > 1) == fp);
            }
        }
        i = i + 1;
    }
    proof {
        assert(all.subrange(0, i as int) =~= all);
    }
    Some(values)
}

/// Once a prefix of the tokens fails to read, so does every longer one.
pub proof fn lemma_values_none_extends(all: Seq<Seq<char>>, k: int)
    requires
        0 <= k <= all.len(),
        values_of(all.subrange(0, k).filter(|t: Seq<char>| t.len() > 1)) is None,
    ensures
        values_of(all.filter(|t: Seq<char>| t.len() > 1)) is None,
    decreases all.len() - k,
{
    if k < all.len() {
        let next = all.subrange(0, k + 1);
        let fp = all.subrange(0, k).filter(|t: Seq<char>| t.len() > 1);
        assert(next.drop_last() =~= all.subrange(0, k));
        reveal(Seq::filter);
        if all[k].len() > 1 {
            assert(next.filter(|t: Seq<char>| t.len() > 1) == fp.push(all[k]));
            assert(fp.push(all[k]).drop_last() =~= fp);
        } else {
            assert(next.filter(|t: Seq<char>| t.len() > 1) == fp);
        }
        lemma_values_none_extends(all, k + 1);
    } else {
        assert(all.subrange(0, k) =~= all);
    }
}

/// The sum of a sequence of changes.
pub open spec fn total(v: Seq<i64>) -> int
    decreases v.len(),
{
    if v.len() == 0 {
        0
    } else {
        total(v.drop_last()) + v.last()
    }
}

/// The resulting frequency: the sum of all changes; `None` if the input does
/// not read or the sum leaves the `i64` range on the way.
pub fn star_one(input: &str) -> (r: Option<i64>)
    ensures
        r matches Some(f) ==> values_of(kept_tokens(input@)) matches Some(v) && f == total(v),
        values_of(kept_tokens(input@)) is None ==> r is None,
        values_of(kept_tokens(input@)) is Some && sums_fit(values_of(kept_tokens(input@))->Some_0)
            ==> r == Some(total(values_of(kept_tokens(input@))->Some_0) as i64),
{
    let values = match parse(input) {
        Some(v) => v,
        None => {
            return None;
        },
    };
    let mut sum: i64 = 0;
    let mut i: usize = 0;
    while i < values.len()
        invariant
            i <= values@.len(),
            sum == total(values@.subrange(0, i as int)),
            values_of(kept_tokens(input@)) == Some(values@),
        decreases values@.len() - i,
    {
        proof {
            assert(values@.subrange(0, i as int + 1).drop_last() =~= values@.subrange(0, i as int));
        }
        match sum.checked_add(values[i]) {
            Some(s) => {
                sum = s;
            },
            None => {
                proof {
                    assert(sum + values@[i as int] < i64::MIN || sum + values@[i as int] > i64::MAX);
                    assert(total(values@.subrange(0, i as int + 1)) == sum + values@[i as int]);
                    assert(!sums_fit(values@));
                    assert(values_of(kept_tokens(input@))->Some_0 == values@);
                }
                return None;
            },
        }
        i = i + 1;
    }
    assert(values@.subrange(0, i as int) =~= values@);
    Some(sum)
}

/// Every running sum of the changes, from the first to all of them, fits an
/// `i64`.
pub open spec fn sums_fit(v: Seq<i64>) -> bool {
    forall|i: int| 0 <= i <= v.len() ==> i64::MIN <= #[trigger] total(v.subrange(0, i)) <= i64::MAX
}

/// Most changes applied while looking for a repeated frequency.
pub const CHANGE_LIMIT: usize = 100000000;

/// The frequency after the first `n` changes, cycling through the list.
pub open spec fn frequency_after(v: Seq<i64>, n: nat) -> int
    decreases n,
{
    if n == 0 || v.len() == 0 {
        0
    } else {
        frequency_after(v, (n - 1) as nat) + v[(n - 1) % (v.len() as int)]
    }
}

/// The frequencies after `0 ..= n` changes are pairwise different.
pub open spec fn all_distinct(v: Seq<i64>, n: nat) -> bool {
    forall|a: nat, b: nat|
        a < b <= n ==> #[trigger] frequency_after(v, a) != #[trigger] frequency_after(v, b)
}

/// After `n` changes the frequency is one reached before, for the first
/// time.
pub open spec fn first_repeat(v: Seq<i64>, n: nat) -> bool {
    &&& n >= 1
    &&& all_distinct(v, (n - 1) as nat)
    &&& exists|m: nat| m < n && #[trigger] frequency_after(v, m) == frequency_after(v, n)
}

/// The search finds no repeat: there are no changes, or the frequencies up
/// to some `n` are all different and either `n` is `CHANGE_LIMIT` or the
/// next frequency leaves the `i64` range.
pub open spec fn repeat_not_found(v: Seq<i64>) -> bool {
    ||| v.len() == 0
    ||| exists|n: nat|
        n <= CHANGE_LIMIT && #[trigger] all_distinct(v, n) && (n == CHANGE_LIMIT || !(i64::MIN
            <= frequency_after(v, n + 1) <= i64::MAX))
}

/// The first frequency reached twice while applying the changes over and
/// over, starting from zero; `None` if the input does not read, or the
/// search finds no repeat.
pub fn star_two(input: &str) -> (r: Option<i64>)
    ensures
        r is Some ==> values_of(kept_tokens(input@)) is Some,
        r matches Some(f) ==> exists|n: nat|
            #[trigger] first_repeat(values_of(kept_tokens(input@))->Some_0, n) && f == frequency_after(
                values_of(kept_tokens(input@))->Some_0,
                n,
            ),
        r is None ==> values_of(kept_tokens(input@)) is None || repeat_not_found(
            values_of(kept_tokens(input@))->Some_0,
        ),
{
    broadcast use vstd::std_specs::hash::group_hash_axioms;

    let instructions = match parse(input) {
        Some(v) => v,
        None => {
            return None;
        },
    };
    if instructions.len() == 0 {
        return None;
    }
    let ghost changes = instructions@;
    let mut seen_frequencies: HashSet<i64> = HashSet::new();
    seen_frequencies.insert(0);
    let mut current_value: i64 = 0;
    let mut idx: usize = 0;
    proof {
        assert(frequency_after(changes, 0) == 0);
    }
    while idx < CHANGE_LIMIT
        invariant
            changes == instructions@,
            changes.len() > 0,
            values_of(kept_tokens(input@)) == Some(changes),
            current_value == frequency_after(changes, idx as nat),
            idx <= CHANGE_LIMIT,
            forall|f: i64| #[trigger] seen_frequencies@.contains(f) ==> exists|m: nat|
                m <= idx && #[trigger] frequency_after(changes, m) == f,
            forall|m: nat| m <= idx ==> seen_frequencies@.contains(#[trigger] frequency_after(changes, m) as i64),
            forall|m: nat| m <= idx ==> i64::MIN <= #[trigger] frequency_after(changes, m) <= i64::MAX,
            all_distinct(changes, idx as nat),
        decreases CHANGE_LIMIT - idx,
    {
        let instruction = instructions[idx % instructions.len()];
        let ghost n1 = (idx + 1) as nat;
        proof {
            assert((n1 - 1) as nat == idx as nat);
            assert(frequency_after(changes, n1) == frequency_after(changes, idx as nat) + changes[(idx as int) % (changes.len() as int)]);
        }
        let next = match current_value.checked_add(instruction) {
            Some(n) => n,
            None => {
                proof {
                    assert(repeat_not_found(changes)) by {
                        assert(all_distinct(changes, idx as nat));
                    };
                }
                return None;
            },
        };
        current_value = next;
        if seen_frequencies.contains(&current_value) {
            proof {
                let m = choose|m: nat| m <= idx && #[trigger] frequency_after(changes, m) == current_value;
                assert(frequency_after(changes, n1) == current_value);
                assert(first_repeat(changes, n1));
                assert(values_of(kept_tokens(input@))->Some_0 == changes);
                assert(exists|n: nat|
                    #[trigger] first_repeat(changes, n) && current_value == frequency_after(changes, n));
            }
            return Some(current_value);
        }
        proof {
            assert forall|a: nat, b: nat| a < b <= n1 implies #[trigger] frequency_after(changes, a) != #[trigger] frequency_after(changes, b) by {
                if b == n1 {
                    assert(seen_frequencies@.contains(frequency_after(changes, a) as i64));
                }
            };
        }
        seen_frequencies.insert(current_value);
        proof {
            assert forall|f: i64| #[trigger] seen_frequencies@.contains(f) implies exists|m: nat|
                m <= idx + 1 && #[trigger] frequency_after(changes, m) == f by {
                if f == current_value {
                    assert(frequency_after(changes, n1) == f);
                } else {
                    let m = choose|m: nat| m <= idx && #[trigger] frequency_after(changes, m) == f;
                    assert(m <= idx + 1);
                }
            };
            assert forall|m: nat| m <= idx + 1 implies seen_frequencies@.contains(#[trigger] frequency_after(changes, m) as i64) by {
                if m == n1 {
                } else {
                    assert(m <= idx);
                }
            };
            assert forall|m: nat| m <= idx + 1 implies i64::MIN <= #[trigger] frequency_after(changes, m) <= i64::MAX by {
                if m <= idx {
                }
            };
        }
        idx = idx + 1;
    }
    proof {
        assert(repeat_not_found(changes)) by {
            assert(all_distinct(changes, CHANGE_LIMIT as nat));
        };
    }
    None
}

} // verus!
