use crate::text::{chars_of, pieces, split, string_from, views};
use vstd::prelude::*;

verus! {

/// The positions at which two equally long ids differ.
pub open spec fn differ_at(lhs: Seq<char>, rhs: Seq<char>, p: int) -> bool {
    0 <= p < lhs.len() && lhs[p] != rhs[p]
}

/// `Some(p)` when the two ids have one length and differ at `p` alone.
pub fn almost_equal(lhs: &Vec<char>, rhs: &Vec<char>) -> (r: Option<usize>)
    ensures
        r matches Some(p) ==> lhs@.len() == rhs@.len() && differ_at(lhs@, rhs@, p as int) && forall|q: int|
            #[trigger] differ_at(lhs@, rhs@, q) ==> q == p,
        r is None ==> lhs@.len() != rhs@.len() || forall|p: int|
            #[trigger] differ_at(lhs@, rhs@, p) ==> exists|q: int| differ_at(lhs@, rhs@, q) && q != p,
{
    if lhs.len() != rhs.len() {
        return None;
    }
    let mut differs_by: Option<usize> = None;
    let mut pos: usize = 0;
    while pos < lhs.len()
        invariant
            lhs@.len() == rhs@.len(),
            pos <= lhs@.len(),
            differs_by is None ==> forall|q: int| 0 <= q < pos ==> !#[trigger] differ_at(lhs@, rhs@, q),
            differs_by matches Some(p) ==> p < pos && differ_at(lhs@, rhs@, p as int) && forall|q: int|
                0 <= q < pos && #[trigger] differ_at(lhs@, rhs@, q) ==> q == p,
        decreases lhs@.len() - pos,
    {
        if lhs[pos] != rhs[pos] {
            if let Some(p) = differs_by {
                proof {
                    assert forall|p2: int| #[trigger] differ_at(lhs@, rhs@, p2) implies exists|q: int|
                        differ_at(lhs@, rhs@, q) && q != p2 by {
                        if p2 == pos {
                            assert(differ_at(lhs@, rhs@, p as int));
                        } else {
                            assert(differ_at(lhs@, rhs@, pos as int));
                        }
                    };
                }
                return None;
            }
            differs_by = Some(pos);
        }
        pos = pos + 1;
    }
    differs_by
}

/// How many times `c` occurs in `s`.
pub open spec fn occurrences(s: Seq<char>, c: char) -> nat
    decreases s.len(),
{
    if s.len() == 0 {
        0
    } else {
        occurrences(s.drop_last(), c) + (if s.last() == c { 1nat } else { 0nat })
    }
}

/// Some letter occurs exactly `k` times in the id.
pub open spec fn has_count(id: Seq<char>, k: nat) -> bool {
    exists|i: int| 0 <= i < id.len() && occurrences(id, #[trigger] id[i]) == k
}

pub fn count_of(id: &Vec<char>, c: char) -> (r: usize)
    ensures
        r == occurrences(id@, c),
{
    let mut n: usize = 0;
    let mut i: usize = 0;
    while i < id.len()
        invariant
            i <= id@.len(),
            n == occurrences(id@.subrange(0, i as int), c),
            n <= i,
        decreases id@.len() - i,
    {
        proof {
            assert(id@.subrange(0, i as int + 1).drop_last() =~= id@.subrange(0, i as int));
        }
        if id[i] == c {
            n = n + 1;
        }
        i = i + 1;
    }
    assert(id@.subrange(0, i as int) =~= id@);
    n
}

/// Whether some letter occurs exactly `k` times in the id.
pub fn any_count(id: &Vec<char>, k: usize) -> (r: bool)
    ensures
        r == has_count(id@, k as nat),
{
    let mut i: usize = 0;
    while i < id.len()
        invariant
            i <= id@.len(),
            forall|j: int| 0 <= j < i ==> occurrences(id@, #[trigger] id@[j]) != k,
        decreases id@.len() - i,
    {
        if count_of(id, id[i]) == k {
            return true;
        }
        i = i + 1;
    }
    false
}

/// How many of the ids have some letter exactly `k` times.
pub open spec fn ids_with_count(ids: Seq<Seq<char>>, k: nat) -> nat
    decreases ids.len(),
{
    if ids.len() == 0 {
        0
    } else {
        ids_with_count(ids.drop_last(), k) + (if has_count(ids.last(), k) { 1nat } else { 0nat })
    }
}

/// The checksum: ids with a letter twice times ids with a letter three
/// times.
pub fn star_one(input: &str) -> (r: i64)
    requires
        input@.len() < 1000000000,
    ensures
        r == ids_with_count(pieces(input@, false), 2) * ids_with_count(pieces(input@, false), 3),
{
    let chars = chars_of(input);
    let ids = split(&chars, false);
    let ghost v = views(ids@);
    proof {
        lemma_pieces_count(input@, false);
    }
    let mut twos: i64 = 0;
    let mut threes: i64 = 0;
    let mut i: usize = 0;
    while i < ids.len()
        invariant
            v == views(ids@),
            v == pieces(input@, false),
            ids@.len() <= input@.len() + 1,
            input@.len() < 1000000000,
            i <= ids@.len(),
            twos == ids_with_count(v.subrange(0, i as int), 2),
            threes == ids_with_count(v.subrange(0, i as int), 3),
            twos <= i,
            threes <= i,
        decreases ids@.len() - i,
    {
        proof {
            assert(v.subrange(0, i as int + 1).drop_last() =~= v.subrange(0, i as int));
            assert(v.subrange(0, i as int + 1).last() == ids@[i as int]@);
        }
        if any_count(&ids[i], 2) {
            twos = twos + 1;
        }
        if any_count(&ids[i], 3) {
            threes = threes + 1;
        }
        i = i + 1;
    }
    assert(v.subrange(0, i as int) =~= v);
    proof {
        assert(twos * threes <= 1000000001 * 1000000001) by (nonlinear_arith)
            requires 0 <= twos <= 1000000001, 0 <= threes <= 1000000001;
    }
    twos * threes
}

/// There are at most one more pieces than characters.
pub proof fn lemma_pieces_count(s: Seq<char>, words: bool)
    ensures
        pieces(s, words).len() <= s.len() + 1,
    decreases s.len(),
{
    if s.len() > 0 {
        lemma_pieces_count(s.drop_last(), words);
        crate::text::lemma_pieces_nonempty(s.drop_last(), words);
    }
}

/// The ids are equally long and differ in one place only.
pub open spec fn one_apart(a: Seq<char>, b: Seq<char>) -> bool {
    a.len() == b.len() && exists|p: int|
        #[trigger] differ_at(a, b, p) && forall|q: int| #[trigger] differ_at(a, b, q) ==> q == p
}

/// Line `i`, non-empty, and line `j` are one place apart.
pub open spec fn pair_at(ids: Seq<Seq<char>>, i: int, j: int) -> bool {
    0 <= i < ids.len() && 0 <= j < ids.len() && ids[i].len() > 0 && one_apart(ids[i], ids[j])
}

/// No pair comes before `(i, j)` when each line is scanned against all.
pub open spec fn none_before(ids: Seq<Seq<char>>, i: int, j: int) -> bool {
    forall|i2: int, j2: int| (i2 < i || (i2 == i && j2 < j)) ==> !#[trigger] pair_at(ids, i2, j2)
}

/// The common letters of the two ids that differ in one place: the first
/// such pair among the non-empty lines, scanning each id against all;
/// `None` when there is no such pair.
pub fn star_two(input: &str) -> (r: Option<String>)
    ensures
        r matches Some(common) ==> exists|i: int, j: int, p: int|
            #[trigger] pair_at(pieces(input@, false), i, j) && none_before(pieces(input@, false), i, j)
                && #[trigger] differ_at(pieces(input@, false)[i], pieces(input@, false)[j], p)
                && common@ == pieces(input@, false)[i].remove(p),
        r is None ==> forall|i: int, j: int| !#[trigger] pair_at(pieces(input@, false), i, j),
{
    let chars = chars_of(input);
    let ids = split(&chars, false);
    let ghost v = views(ids@);
    let mut i: usize = 0;
    while i < ids.len()
        invariant
            v == views(ids@),
            v == pieces(input@, false),
            i <= ids@.len(),
            none_before(v, i as int, 0),
        decreases ids@.len() - i,
    {
        let mut j: usize = 0;
        while j < ids.len()
            invariant
                v == views(ids@),
                v == pieces(input@, false),
                i < ids@.len(),
                j <= ids@.len(),
                none_before(v, i as int, j as int),
            decreases ids@.len() - j,
        {
            proof {
                assert(v[i as int] == ids@[i as int]@);
                assert(v[j as int] == ids@[j as int]@);
            }
            if ids[i].len() > 0 {
                match almost_equal(&ids[i], &ids[j]) {
                    Some(p) => {
                        let common = without_position(&ids[i], p);
                        proof {
                            assert(differ_at(v[i as int], v[j as int], p as int));
                            assert(pair_at(v, i as int, j as int));
                        }
                        return Some(common);
                    },
                    None => {
                        proof {
                            assert(!pair_at(v, i as int, j as int)) by {
                                if one_apart(v[i as int], v[j as int]) {
                                    let p = choose|p: int|
                                        #[trigger] differ_at(v[i as int], v[j as int], p) && forall|q: int|
                                            #[trigger] differ_at(v[i as int], v[j as int], q) ==> q == p;
                                    assert(differ_at(ids@[i as int]@, ids@[j as int]@, p));
                                }
                            };
                        }
                    },
                }
            }
            proof {
                assert forall|i2: int, j2: int| (i2 < i || (i2 == i && j2 < j + 1)) implies !#[trigger] pair_at(v, i2, j2) by {
                    if i2 == i && j2 == j {
                    }
                };
            }
            j = j + 1;
        }
        proof {
            assert forall|i2: int, j2: int| (i2 < i + 1 || (i2 == i + 1 && j2 < 0)) implies !#[trigger] pair_at(v, i2, j2) by {
                if i2 == i && !(j2 < j) {
                    assert(!(0 <= j2 < v.len()));
                }
            };
        }
        i = i + 1;
    }
    proof {
        assert forall|i2: int, j2: int| !#[trigger] pair_at(v, i2, j2) by {
            if i2 < i {
            }
        };
    }
    None
}

/// The id with the character at `p` taken out.
pub fn without_position(id: &Vec<char>, p: usize) -> (r: String)
    requires
        p < id@.len(),
    ensures
        r@ == id@.remove(p as int),
{
    let mut kept: Vec<char> = Vec::new();
    let mut i: usize = 0;
    while i < id.len()
        invariant
            p < id@.len(),
            i <= id@.len(),
            kept@ == (if i <= p { id@.subrange(0, i as int) } else { id@.subrange(0, i as int).remove(p as int) }),
        decreases id@.len() - i,
    {
        if i != p {
            kept.push(id[i]);
        }
        proof {
            if i < p {
                assert(id@.subrange(0, i as int + 1) =~= id@.subrange(0, i as int).push(id@[i as int]));
            } else if i == p {
                assert(id@.subrange(0, i as int + 1).remove(p as int) =~= id@.subrange(0, i as int));
            } else {
                assert(id@.subrange(0, i as int + 1).remove(p as int) =~= id@.subrange(0, i as int).remove(p as int).push(id@[i as int]));
            }
        }
        i = i + 1;
    }
    assert(id@.subrange(0, i as int) =~= id@);
    string_from(&kept)
}

} // verus!
