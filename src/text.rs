use vstd::prelude::*;

verus! {

/// The characters of `s`, in order.
pub fn chars_of(s: &str) -> (r: Vec<char>)
    ensures
        r@ == s@,
{
    let mut r: Vec<char> = Vec::new();
    for c in it: s.chars()
        invariant
            r@ == it.seq().subrange(0, it.index() as int),
            it.seq() == s@,
    {
        r.push(c);
    }
    r
}

/// Relies on `String`'s `FromIterator<&char>`: the characters in order.
#[verifier::external_body]
pub(crate) fn string_from(chars: &Vec<char>) -> (r: String)
    ensures
        r@ == chars@,
{
    chars.iter().collect()
}

/// White space as Unicode defines it (the `White_Space` property), the
/// characters `char::is_whitespace` accepts and `str::trim` drops.
pub open spec fn is_space(c: char) -> bool {
    let u = c as u32;
    ||| 0x9 <= u <= 0xd
    ||| u == 0x20
    ||| u == 0x85
    ||| u == 0xa0
    ||| u == 0x1680
    ||| 0x2000 <= u <= 0x200a
    ||| u == 0x2028
    ||| u == 0x2029
    ||| u == 0x202f
    ||| u == 0x205f
    ||| u == 0x3000
}

pub fn space(c: char) -> (r: bool)
    ensures
        r == is_space(c),
{
    let u = c as u32;
    (0x9 <= u && u <= 0xd) || u == 0x20 || u == 0x85 || u == 0xa0 || u == 0x1680 || (0x2000 <= u
        && u <= 0x200a) || u == 0x2028 || u == 0x2029 || u == 0x202f || u == 0x205f || u == 0x3000
}

/// The bounds `(a, b)` of `s` with white space trimmed from both ends.
pub open spec fn trimmed(s: Seq<char>, a: int, b: int) -> bool {
    &&& 0 <= a <= b <= s.len()
    &&& forall|i: int| 0 <= i < a ==> is_space(#[trigger] s[i])
    &&& forall|i: int| b <= i < s.len() ==> is_space(#[trigger] s[i])
    &&& a < b ==> !is_space(s[a]) && !is_space(s[b - 1])
}

/// The bounds of `s` with white space trimmed from both ends.
pub fn trim_bounds(s: &Vec<char>) -> (r: (usize, usize))
    ensures
        trimmed(s@, r.0 as int, r.1 as int),
{
    let mut a: usize = 0;
    while a < s.len() && space(s[a])
        invariant
            a <= s@.len(),
            forall|i: int| 0 <= i < a ==> is_space(#[trigger] s@[i]),
        decreases s@.len() - a,
    {
        a = a + 1;
    }
    let mut b: usize = s.len();
    while b > a && space(s[b - 1])
        invariant
            a <= b <= s@.len(),
            forall|i: int| b <= i < s@.len() ==> is_space(#[trigger] s@[i]),
        decreases b - a,
    {
        b = b - 1;
    }
    (a, b)
}


/// Whether `c` separates pieces: a line break, or with `words` also a comma
/// or any white space.
pub open spec fn is_separator(c: char, words: bool) -> bool {
    if words { c == ',' || is_space(c) } else { c == '\n' }
}

/// The pieces of `s` between separators, empty ones included.
pub open spec fn pieces(s: Seq<char>, words: bool) -> Seq<Seq<char>>
    decreases s.len(),
{
    if s.len() == 0 {
        seq![seq![]]
    } else {
        let p = pieces(s.drop_last(), words);
        if is_separator(s.last(), words) {
            p.push(seq![])
        } else {
            p.update(p.len() - 1, p.last().push(s.last()))
        }
    }
}

pub proof fn lemma_pieces_nonempty(s: Seq<char>, words: bool)
    ensures
        pieces(s, words).len() >= 1,
    decreases s.len(),
{
    if s.len() > 0 {
        lemma_pieces_nonempty(s.drop_last(), words);
    }
}

pub open spec fn views(v: Seq<Vec<char>>) -> Seq<Seq<char>> {
    v.map_values(|l: Vec<char>| l@)
}

/// Splits `s` into the pieces between separators: lines, or with `words`
/// the runs between commas and white space.
pub fn split(s: &Vec<char>, words: bool) -> (r: Vec<Vec<char>>)
    ensures
        views(r@) == pieces(s@, words),
{
    let mut done: Vec<Vec<char>> = Vec::new();
    let mut cur: Vec<char> = Vec::new();
    let mut i: usize = 0;
    while i < s.len()
        invariant
            i <= s@.len(),
            views(done@).push(cur@) == pieces(s@.subrange(0, i as int), words),
        decreases s@.len() - i,
    {
        let c = s[i];
        let ghost prefix = s@.subrange(0, i as int + 1);
        proof {
            assert(prefix.drop_last() =~= s@.subrange(0, i as int));
            lemma_pieces_nonempty(s@.subrange(0, i as int), words);
        }
        let sep = if words { c == ',' || space(c) } else { c == '\n' };
        if sep {
            let finished = cur;
            cur = Vec::new();
            done.push(finished);
            proof {
                assert(views(done@) =~= pieces(s@.subrange(0, i as int), words));
                assert(views(done@).push(cur@) =~= pieces(prefix, words));
            }
        } else {
            cur.push(c);
            proof {
                assert(views(done@).push(cur@) =~= pieces(prefix, words));
            }
        }
        i = i + 1;
    }
    done.push(cur);
    proof {
        assert(s@.subrange(0, i as int) =~= s@);
        assert(views(done@) =~= pieces(s@, words));
    }
    done
}

/// `s` with white space trimmed from both ends.
pub open spec fn trim_of(s: Seq<char>) -> Seq<char> {
    let ab = choose|ab: (int, int)| trimmed(s, ab.0, ab.1);
    s.subrange(ab.0, ab.1)
}

pub proof fn lemma_trimmed_unique(s: Seq<char>, a1: int, b1: int, a2: int, b2: int)
    requires
        trimmed(s, a1, b1),
        trimmed(s, a2, b2),
    ensures
        b1 - a1 == b2 - a2,
        a1 < b1 ==> a1 == a2 && b1 == b2,
{
    if a1 < b1 {
        if a2 < a1 {
            assert(is_space(s[a2]));
        }
        if a1 < a2 {
            assert(is_space(s[a1]));
        }
        if b2 < b1 {
            assert(is_space(s[b1 - 1]));
        }
        if b1 < b2 {
            assert(is_space(s[b2 - 1]));
        }
    } else if a2 < b2 {
        if a2 < a1 {
            assert(is_space(s[a2]));
        } else {
            assert(is_space(s[a2]));
        }
    }
}

pub proof fn lemma_trim_of(s: Seq<char>, a: int, b: int)
    requires
        trimmed(s, a, b),
    ensures
        trim_of(s) == s.subrange(a, b),
{
    let w = (a, b);
    assert(trimmed(s, w.0, w.1));
    let ab = choose|ab: (int, int)| trimmed(s, ab.0, ab.1);
    lemma_trimmed_unique(s, a, b, ab.0, ab.1);
    if a >= b {
        assert(s.subrange(ab.0, ab.1) =~= s.subrange(a, b));
    }
}

} // verus!
