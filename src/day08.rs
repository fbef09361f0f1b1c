use crate::text::{chars_of, pieces, split, views};
use vstd::prelude::*;

verus! {

/// The value of a run of decimal digits.
pub open spec fn decimal(s: Seq<char>) -> nat
    decreases s.len(),
{
    if s.len() == 0 {
        0
    } else {
        10 * decimal(s.drop_last()) + (s.last() as u32 - '0' as u32) as nat
    }
}

pub open spec fn is_number(s: Seq<char>) -> bool {
    s.len() > 0 && forall|i: int| 0 <= i < s.len() ==> '0' <= #[trigger] s[i] <= '9'
}

/// Reads an unsigned decimal number; `None` if the token is not one or
/// does not fit.
pub fn read_unsigned(t: &Vec<char>) -> (r: Option<usize>)
    ensures
        r matches Some(v) ==> is_number(t@) && v == decimal(t@),
        is_number(t@) && decimal(t@) <= usize::MAX ==> r is Some,
{
    if t.len() == 0 {
        return None;
    }
    let mut value: usize = 0;
    let mut i: usize = 0;
    while i < t.len()
        invariant
            i <= t@.len(),
            value == decimal(t@.subrange(0, i as int)),
            forall|j: int| 0 <= j < i ==> '0' <= #[trigger] t@[j] <= '9',
        decreases t@.len() - i,
    {
        let c = t[i];
        let ghost before = t@.subrange(0, i as int);
        let ghost after = t@.subrange(0, i as int + 1);
        proof {
            assert(after.drop_last() =~= before);
        }
        if c < '0' || c > '9' {
            return None;
        }
        let d = (c as u32 - '0' as u32) as usize;
        match value.checked_mul(10) {
            None => {
                proof {
                    lemma_decimal_prefix(t@, (i + 1) as nat);
                }
                return None;
            },
            Some(m) => match m.checked_add(d) {
                None => {
                    proof {
                        lemma_decimal_prefix(t@, (i + 1) as nat);
                    }
                    return None;
                },
                Some(v) => {
                    value = v;
                },
            },
        }
        i = i + 1;
    }
    assert(t@.subrange(0, i as int) =~= t@);
    Some(value)
}

/// A number is at least any of its prefixes.
pub proof fn lemma_decimal_prefix(s: Seq<char>, k: nat)
    requires
        k <= s.len(),
    ensures
        is_number(s) ==> decimal(s) >= decimal(s.subrange(0, k as int)),
    decreases s.len(),
{
    if s.len() > k {
        lemma_decimal_prefix(s.drop_last(), k);
        assert(s.drop_last().subrange(0, k as int) =~= s.subrange(0, k as int));
        if is_number(s) && s.drop_last().len() > 0 {
            assert(is_number(s.drop_last())) by {
                assert forall|i: int| 0 <= i < s.drop_last().len() implies '0' <= #[trigger] s.drop_last()[i] <= '9' by {
                    assert(s.drop_last()[i] == s[i]);
                };
            };
        }
        if s.drop_last().len() == 0 {
            assert(s.subrange(0, k as int).len() == 0);
        }
    } else {
        assert(s.subrange(0, k as int) =~= s);
    }
}

/// The numbers of the input: its non-empty runs between white space and
/// commas, each read as an unsigned number.
pub open spec fn numbers_of(tokens: Seq<Seq<char>>) -> Option<Seq<usize>>
    decreases tokens.len(),
{
    if tokens.len() == 0 {
        Some(seq![])
    } else {
        let t = tokens.last();
        match numbers_of(tokens.drop_last()) {
            None => None,
            Some(ns) => if t.len() == 0 {
                Some(ns)
            } else if is_number(t) && decimal(t) <= usize::MAX {
                Some(ns.push(decimal(t) as usize))
            } else {
                None
            },
        }
    }
}

/// Reads the numbers of the input.
pub fn parse(input: &str) -> (r: Option<Vec<usize>>)
    ensures
        r matches Some(v) ==> numbers_of(pieces(input@, true)) == Some(v@),
        r is None ==> numbers_of(pieces(input@, true)) is None,
{
    let chars = chars_of(input);
    let tokens = split(&chars, true);
    let ghost all = views(tokens@);
    let mut values: Vec<usize> = Vec::new();
    let mut i: usize = 0;
    while i < tokens.len()
        invariant
            all == views(tokens@),
            all == pieces(input@, true),
            i <= tokens@.len(),
            numbers_of(all.subrange(0, i as int)) == Some(values@),
        decreases tokens@.len() - i,
    {
        proof {
            assert(all.subrange(0, i as int + 1).drop_last() =~= all.subrange(0, i as int));
            assert(all.subrange(0, i as int + 1).last() == tokens@[i as int]@);
        }
        if tokens[i].len() > 0 {
            match read_unsigned(&tokens[i]) {
                None => {
                    proof {
                        lemma_numbers_none_extends(all, i as int + 1);
                    }
                    return None;
                },
                Some(v) => {
                    values.push(v);
                },
            }
        }
        i = i + 1;
    }
    assert(all.subrange(0, i as int) =~= all);
    Some(values)
}

pub proof fn lemma_numbers_none_extends(all: Seq<Seq<char>>, k: int)
    requires
        0 <= k <= all.len(),
        numbers_of(all.subrange(0, k)) is None,
    ensures
        numbers_of(all) is None,
    decreases all.len() - k,
{
    if k < all.len() {
        assert(all.subrange(0, k + 1).drop_last() =~= all.subrange(0, k));
        lemma_numbers_none_extends(all, k + 1);
    } else {
        assert(all.subrange(0, k) =~= all);
    }
}

/// The sum of the entries `s[a .. b]`.
pub open spec fn sum_range(s: Seq<usize>, a: int, b: int) -> nat
    decreases b - a,
{
    if b <= a {
        0
    } else {
        sum_range(s, a, b - 1) + s[b - 1] as nat
    }
}

/// The value a node gets from its metadata entries `s[a .. b]`: the sum of
/// the values of the children they name, counting from one, skipping
/// entries that name no child.
pub open spec fn indexed_sum(s: Seq<usize>, a: int, b: int, values: Seq<nat>) -> nat
    decreases b - a,
{
    if b <= a {
        0
    } else {
        indexed_sum(s, a, b - 1, values) + (if 1 <= s[b - 1] <= values.len() {
            values[s[b - 1] - 1]
        } else {
            0nat
        })
    }
}

/// The node whose header is at `pos`: its metadata total over the whole
/// subtree, its value, and where it ends.
pub open spec fn node(s: Seq<usize>, pos: int) -> Option<(nat, nat, int)>
    decreases s.len() - pos, 0nat, 0nat,
{
    if 0 <= pos && pos + 2 <= s.len() {
        let count = s[pos] as nat;
        let meta = s[pos + 1] as int;
        match children(s, pos + 2, count) {
            None => None,
            Some((total, values, end)) => if end + meta <= s.len() {
                let own = sum_range(s, end, end + meta);
                let value = if count == 0 { own } else { indexed_sum(s, end, end + meta, values) };
                Some((total + own, value, end + meta))
            } else {
                None
            },
        }
    } else {
        None
    }
}

/// `count` nodes one after another from `pos`: their metadata total, their
/// values, and where the last ends.
pub open spec fn children(s: Seq<usize>, pos: int, count: nat) -> Option<(nat, Seq<nat>, int)>
    decreases s.len() - pos, 1nat, count,
{
    if count == 0 {
        Some((0, seq![], pos))
    } else {
        match children(s, pos, (count - 1) as nat) {
            None => None,
            Some((total, values, end)) => if pos <= end <= s.len() {
                match node(s, end) {
                    None => None,
                    Some((t, v, e)) => Some((total + t, values.push(v), e)),
                }
            } else {
                None
            },
        }
    }
}

/// Reads the node at `pos`; `None` if the numbers run out or a sum
/// does not fit.
pub fn read_node(s: &Vec<usize>, pos: usize) -> (r: Option<(usize, usize, usize)>)
    ensures
        r matches Some((t, v, e)) ==> node(s@, pos as int) == Some((t as nat, v as nat, e as int)),
        r is None ==> node(s@, pos as int) is None || too_big_from(s@, pos as int),
    decreases s@.len() - pos,
{
    if pos > s.len() || s.len() - pos < 2 {
        return None;
    }
    let count = s[pos];
    let meta = s[pos + 1];
    let ghost child_spec = children(s@, pos + 2, count as nat);
    let mut total: usize = 0;
    let mut values: Vec<usize> = Vec::new();
    let mut end: usize = pos + 2;
    let mut k: usize = 0;
    while k < count
        invariant
            pos + 2 <= end <= s@.len(),
            k <= count,
            count == s@[pos as int],
            children(s@, pos + 2, k as nat) == Some((total as nat, values@.map_values(|x: usize| x as nat), end as int)),
        decreases count - k,
    {
        proof {
            assert(pos + 2 <= end);
        }
        match read_node(s, end) {
            None => {
                proof {
                    if too_big_from(s@, end as int) {
                        let q = choose|q: int| q >= end && #[trigger] node(s@, q) is Some && (node(s@, q)->Some_0.0 > usize::MAX
                            || node(s@, q)->Some_0.1 > usize::MAX);
                        assert(q >= pos);
                    } else {
                        assert(children(s@, pos + 2, (k + 1) as nat) is None);
                        lemma_children_none_extends(s@, pos + 2, (k + 1) as nat, count as nat);
                    }
                }
                return None;
            },
            Some((t, v, e)) => {
                match total.checked_add(t) {
                    None => {
                        proof {
                            assert(children(s@, pos + 2, (k + 1) as nat)->Some_0.0 == total + t);
                            if children(s@, pos + 2, count as nat) is Some {
                                lemma_children_total_grows(s@, pos + 2, (k + 1) as nat, count as nat);
                                assert(node(s@, pos as int) is Some ==> node(s@, pos as int)->Some_0.0 > usize::MAX);
                                lemma_too_big_here(s@, pos as int);
                            } else {
                                assert(node(s@, pos as int) is None);
                            }
                        }
                        return None;
                    },
                    Some(nt) => {
                        total = nt;
                    },
                }
                values.push(v);
                proof {
                    assert(values@.map_values(|x: usize| x as nat) =~= values@.drop_last().map_values(|x: usize| x as nat).push(v as nat));
                    lemma_node_end(s@, end as int);
                }
                end = e;
            },
        }
        k = k + 1;
    }
    proof {
        lemma_children_end(s@, pos + 2, count as nat);
    }
    if s.len() - end < meta {
        return None;
    }
    let mut own: usize = 0;
    let mut indexed: usize = 0;
    let stop = end + meta;
    let mut j: usize = end;
    while j < stop
        invariant
            stop == end + meta,
            end + meta <= s@.len(),
            pos + 2 <= end,
            count == s@[pos as int],
            meta == s@[pos as int + 1],
            values@.len() == count,
            children(s@, pos + 2, count as nat) == Some((total as nat, values@.map_values(|x: usize| x as nat), end as int)),
            end <= j <= end + meta,
            own == sum_range(s@, end as int, j as int),
            indexed == indexed_sum(s@, end as int, j as int, values@.map_values(|x: usize| x as nat)),
        decreases stop - j,
    {
        let m = s[j];
        match own.checked_add(m) {
            None => {
                proof {
                    assert(sum_range(s@, end as int, j + 1) == own + m);
                    lemma_sum_range_grows(s@, end as int, j + 1, end + meta);
                    lemma_too_big_here(s@, pos as int);
                }
                return None;
            },
            Some(o) => {
                own = o;
            },
        }
        if 1 <= m && m <= values.len() {
            match indexed.checked_add(values[m - 1]) {
                None => {
                    proof {
                        let vals = values@.map_values(|x: usize| x as nat);
                        assert(vals[m - 1] == values@[m - 1]);
                        assert(indexed_sum(s@, end as int, j + 1, vals) == indexed + values@[m - 1]);
                        lemma_indexed_sum_grows(s@, end as int, j + 1, end + meta, vals);
                        lemma_too_big_here(s@, pos as int);
                    }
                    return None;
                },
                Some(x) => {
                    indexed = x;
                },
            }
        }
        j = j + 1;
    }
    let value = if count == 0 { own } else { indexed };
    match total.checked_add(own) {
        None => {
            proof {
                lemma_too_big_here(s@, pos as int);
            }
            None
        },
        Some(t) => Some((t, value, stop)),
    }
}

/// Some node from `pos` on has a metadata total or a value beyond `usize`.
pub open spec fn too_big_from(s: Seq<usize>, pos: int) -> bool {
    exists|q: int|
        q >= pos && #[trigger] node(s, q) is Some && (node(s, q)->Some_0.0 > usize::MAX || node(
            s,
            q,
        )->Some_0.1 > usize::MAX)
}

pub proof fn lemma_too_big_here(s: Seq<usize>, pos: int)
    requires
        node(s, pos) is Some ==> node(s, pos)->Some_0.0 > usize::MAX || node(s, pos)->Some_0.1 > usize::MAX,
    ensures
        node(s, pos) is None || too_big_from(s, pos),
{
}

pub proof fn lemma_sum_range_grows(s: Seq<usize>, a: int, j: int, b: int)
    requires
        a <= j <= b,
    ensures
        sum_range(s, a, j) <= sum_range(s, a, b),
    decreases b - j,
{
    if j < b {
        lemma_sum_range_grows(s, a, j, b - 1);
    }
}

pub proof fn lemma_indexed_sum_grows(s: Seq<usize>, a: int, j: int, b: int, values: Seq<nat>)
    requires
        a <= j <= b,
    ensures
        indexed_sum(s, a, j, values) <= indexed_sum(s, a, b, values),
    decreases b - j,
{
    if j < b {
        lemma_indexed_sum_grows(s, a, j, b - 1, values);
    }
}

pub proof fn lemma_children_none_extends(s: Seq<usize>, pos: int, k: nat, count: nat)
    requires
        children(s, pos, k) is None,
        k <= count,
    ensures
        children(s, pos, count) is None,
    decreases count - k,
{
    if k < count {
        lemma_children_none_extends(s, pos, k + 1, count);
    }
}

pub proof fn lemma_children_total_grows(s: Seq<usize>, pos: int, k: nat, count: nat)
    requires
        children(s, pos, count) is Some,
        k <= count,
    ensures
        children(s, pos, k) is Some,
        children(s, pos, k)->Some_0.0 <= children(s, pos, count)->Some_0.0,
    decreases count - k,
{
    if k < count {
        lemma_children_total_grows(s, pos, k, (count - 1) as nat);
    }
}

/// A node ends after it starts.
pub proof fn lemma_node_end(s: Seq<usize>, pos: int)
    requires
        node(s, pos) is Some,
    ensures
        node(s, pos)->Some_0.2 > pos,
        node(s, pos)->Some_0.2 <= s.len(),
    decreases s.len() - pos, 0nat, 0nat,
{
    lemma_children_end(s, pos + 2, s[pos] as nat);
}

pub proof fn lemma_children_end(s: Seq<usize>, pos: int, count: nat)
    requires
        children(s, pos, count) is Some,
    ensures
        children(s, pos, count)->Some_0.2 >= pos,
        count > 0 ==> children(s, pos, count)->Some_0.2 <= s.len(),
        children(s, pos, count)->Some_0.1.len() == count,
    decreases s.len() - pos, 1nat, count,
{
    if count > 0 {
        lemma_children_end(s, pos, (count - 1) as nat);
        let end = children(s, pos, (count - 1) as nat)->Some_0.2;
        lemma_node_end(s, end);
    }
}

/// The sum of all metadata entries of the tree; `None` if the numbers do
/// not form a tree or the sum does not fit.
pub fn star_one(input: &str) -> (r: Option<usize>)
    ensures
        r matches Some(total) ==> numbers_of(pieces(input@, true)) is Some && node(
            numbers_of(pieces(input@, true))->Some_0,
            0,
        ) is Some && node(numbers_of(pieces(input@, true))->Some_0, 0)->Some_0.0 == total,
        r is None ==> numbers_of(pieces(input@, true)) is None || node(numbers_of(pieces(input@, true))->Some_0, 0)
            is None || too_big_from(numbers_of(pieces(input@, true))->Some_0, 0),
{
    match parse(input) {
        None => None,
        Some(s) => match read_node(&s, 0) {
            Some((total, _, _)) => Some(total),
            None => None,
        },
    }
}

/// The value of the root node; `None` if the numbers do not form a tree or
/// a sum does not fit.
pub fn star_two(input: &str) -> (r: Option<usize>)
    ensures
        r matches Some(value) ==> numbers_of(pieces(input@, true)) is Some && node(
            numbers_of(pieces(input@, true))->Some_0,
            0,
        ) is Some && node(numbers_of(pieces(input@, true))->Some_0, 0)->Some_0.1 == value,
        r is None ==> numbers_of(pieces(input@, true)) is None || node(numbers_of(pieces(input@, true))->Some_0, 0)
            is None || too_big_from(numbers_of(pieces(input@, true))->Some_0, 0),
{
    match parse(input) {
        None => None,
        Some(s) => match read_node(&s, 0) {
            Some((_, value, _)) => Some(value),
            None => None,
        },
    }
}

} // verus!
