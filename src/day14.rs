use crate::text::string_from;
use vstd::prelude::*;

verus! {

/// The decimal digits of `n`, most significant first.
pub open spec fn digits(n: nat) -> Seq<usize>
    decreases n,
{
    if n < 10 {
        seq![n as usize]
    } else {
        digits(n / 10).push((n % 10) as usize)
    }
}

pub proof fn lemma_digits_two(n: nat)
    requires
        n < 100,
    ensures
        1 <= digits(n).len() <= 2,
{
    if n >= 10 {
        assert(digits(n / 10).len() == 1);
    }
}

pub proof fn lemma_digits_small(n: nat)
    ensures
        forall|i: int| 0 <= i < digits(n).len() ==> #[trigger] digits(n)[i] < 10,
        digits(n).len() >= 1,
    decreases n,
{
    if n >= 10 {
        lemma_digits_small(n / 10);
    }
}

/// The scoreboard and where the two elves stand.
pub struct Kitchen {
    pub board: Seq<usize>,
    pub first: int,
    pub second: int,
}

/// One step: the digits of the two current scores join the board, then each
/// elf moves on by one plus its score, around the new board.
pub open spec fn step(k: Kitchen) -> Kitchen {
    let a = k.board[k.first];
    let b = k.board[k.second];
    let board = k.board + digits((a + b) as nat);
    Kitchen {
        board,
        first: (k.first + a + 1) % (board.len() as int),
        second: (k.second + b + 1) % (board.len() as int),
    }
}

/// The kitchen after `n` steps from the board `3, 7`.
pub open spec fn kitchen_after(n: nat) -> Kitchen
    decreases n,
{
    if n == 0 {
        Kitchen { board: seq![3usize, 7usize], first: 0, second: 1 }
    } else {
        step(kitchen_after((n - 1) as nat))
    }
}

pub open spec fn kitchen_ok(k: Kitchen) -> bool {
    &&& k.board.len() >= 2
    &&& 0 <= k.first < k.board.len()
    &&& 0 <= k.second < k.board.len()
    &&& forall|i: int| 0 <= i < k.board.len() ==> #[trigger] k.board[i] < 10
}

pub proof fn lemma_kitchen_ok(n: nat)
    ensures
        kitchen_ok(kitchen_after(n)),
        kitchen_after(n).board.len() >= n + 2,
    decreases n,
{
    if n > 0 {
        lemma_kitchen_ok((n - 1) as nat);
        let k = kitchen_after((n - 1) as nat);
        lemma_digits_small((k.board[k.first] + k.board[k.second]) as nat);
        let s = step(k);
        assert forall|i: int| 0 <= i < s.board.len() implies #[trigger] s.board[i] < 10 by {
            if i >= k.board.len() {
                assert(s.board[i] == digits((k.board[k.first] + k.board[k.second]) as nat)[i - k.board.len()]);
            }
        };
    }
}

/// An elf and the recipe it holds.
pub struct Elf {
    pub current_recipe: usize,
}

impl Elf {
    pub fn new(current_recipe: usize) -> (r: Elf)
        ensures
            r.current_recipe == current_recipe,
    {
        Elf { current_recipe }
    }

    /// Moves on by one plus the current recipe's score, around the board.
    pub fn pick_new_recipe(&mut self, scoreboard: &[usize])
        requires
            old(self).current_recipe < scoreboard@.len(),
            scoreboard@[old(self).current_recipe as int] < 10,
            scoreboard@.len() < usize::MAX - 10,
        ensures
            final(self).current_recipe == (old(self).current_recipe + scoreboard@[old(self).current_recipe as int] + 1)
                % (scoreboard@.len() as int),
    {
        self.current_recipe = (self.current_recipe + scoreboard[self.current_recipe] + 1) % scoreboard.len();
    }
}

/// The sum of the recipes the elves hold.
pub open spec fn held_sum(elves: Seq<Elf>, scoreboard: Seq<usize>) -> nat
    decreases elves.len(),
{
    if elves.len() == 0 {
        0
    } else {
        held_sum(elves.drop_last(), scoreboard) + scoreboard[elves.last().current_recipe as int] as nat
    }
}

/// The new recipes: the digits of the sum of the recipes the elves hold.
pub fn make_new_recipes(elves: &[Elf], scoreboard: &[usize]) -> (r: Vec<usize>)
    requires
        elves@.len() <= 2,
        forall|i: int| 0 <= i < elves@.len() ==> (#[trigger] elves@[i]).current_recipe < scoreboard@.len(),
        forall|i: int| 0 <= i < scoreboard@.len() ==> #[trigger] scoreboard@[i] < 10,
    ensures
        r@ == digits(held_sum(elves@, scoreboard@)),
{
    let mut sum: usize = 0;
    let mut i: usize = 0;
    while i < elves.len()
        invariant
            i <= elves@.len() <= 2,
            forall|j: int| 0 <= j < elves@.len() ==> (#[trigger] elves@[j]).current_recipe < scoreboard@.len(),
            forall|j: int| 0 <= j < scoreboard@.len() ==> #[trigger] scoreboard@[j] < 10,
            sum == held_sum(elves@.subrange(0, i as int), scoreboard@),
            sum <= 9 * i,
        decreases elves@.len() - i,
    {
        proof {
            assert(elves@.subrange(0, i as int + 1).drop_last() =~= elves@.subrange(0, i as int));
        }
        sum = sum + scoreboard[elves[i].current_recipe];
        i = i + 1;
    }
    assert(elves@.subrange(0, i as int) =~= elves@);
    decimal_digits(sum)
}

/// The decimal digits of `n`, most significant first.
pub fn decimal_digits(n: usize) -> (r: Vec<usize>)
    ensures
        r@ == digits(n as nat),
    decreases n,
{
    if n < 10 {
        let mut r: Vec<usize> = Vec::new();
        r.push(n);
        proof {
            assert(r@ =~= seq![n]);
        }
        r
    } else {
        let mut r = decimal_digits(n / 10);
        r.push(n % 10);
        r
    }
}

/// Extends the board by one step and moves both elves.
fn cook(scoreboard: &mut Vec<usize>, elves: &mut Vec<Elf>, ghost_steps: Ghost<nat>)
    requires
        old(elves)@.len() == 2,
        old(scoreboard)@ == kitchen_after(ghost_steps@).board,
        old(elves)@[0].current_recipe == kitchen_after(ghost_steps@).first,
        old(elves)@[1].current_recipe == kitchen_after(ghost_steps@).second,
        old(scoreboard)@.len() < usize::MAX - 20,
    ensures
        final(elves)@.len() == 2,
        final(scoreboard)@ == kitchen_after(ghost_steps@ + 1).board,
        final(elves)@[0].current_recipe == kitchen_after(ghost_steps@ + 1).first,
        final(elves)@[1].current_recipe == kitchen_after(ghost_steps@ + 1).second,
        old(scoreboard)@.len() < final(scoreboard)@.len() <= old(scoreboard)@.len() + 2,
{
    proof {
        lemma_kitchen_ok(ghost_steps@);
        assert(elves@ =~= seq![elves@[0], elves@[1]]);
        assert(seq![elves@[0], elves@[1]].drop_last() =~= seq![elves@[0]]);
        assert(seq![elves@[0]].drop_last() =~= Seq::<Elf>::empty());
    }
    let new_recipes = make_new_recipes(elves.as_slice(), scoreboard.as_slice());
    let ghost k = kitchen_after(ghost_steps@);
    proof {
        let s = (k.board[k.first] + k.board[k.second]) as nat;
        let e = elves@;
        let b = scoreboard@;
        assert(e.drop_last().drop_last() =~= Seq::<Elf>::empty());
        assert(held_sum(e.drop_last().drop_last(), b) == 0);
        assert(e.drop_last().last() == e[0]);
        assert(held_sum(e.drop_last(), b) == b[e[0].current_recipe as int]);
        assert(held_sum(e, b) == s);
        lemma_digits_small(s);
        lemma_digits_two(s);
        assert(kitchen_after(ghost_steps@ + 1) == step(k));
    }
    let mut i: usize = 0;
    while i < new_recipes.len()
        invariant
            i <= new_recipes@.len() <= 2,
            scoreboard@ == k.board + new_recipes@.subrange(0, i as int),
            k.board.len() < usize::MAX - 20,
        decreases new_recipes@.len() - i,
    {
        scoreboard.push(new_recipes[i]);
        proof {
            assert(k.board + new_recipes@.subrange(0, i as int + 1) =~= (k.board + new_recipes@.subrange(0, i as int)).push(new_recipes@[i as int]));
        }
        i = i + 1;
    }
    assert(new_recipes@.subrange(0, i as int) =~= new_recipes@);
    proof {
        lemma_kitchen_ok(ghost_steps@ + 1);
    }
    let mut first = Elf::new(elves[0].current_recipe);
    first.pick_new_recipe(scoreboard.as_slice());
    let mut second = Elf::new(elves[1].current_recipe);
    second.pick_new_recipe(scoreboard.as_slice());
    elves.set(0, first);
    elves.set(1, second);
}

/// Most recipes a search makes before it gives up.
pub const RECIPE_LIMIT: usize = 1000000000;

/// The ten scores that follow the first `recipes_to_make` recipes, as a
/// string of digits.
pub fn star_one(recipes_to_make: usize) -> (r: String)
    requires
        recipes_to_make <= RECIPE_LIMIT,
    ensures
        exists|n: nat|
            #[trigger] kitchen_after(n).board.len() >= recipes_to_make + 10 && r@ == digit_chars(
                kitchen_after(n).board.subrange(recipes_to_make as int, recipes_to_make + 10),
            ),
{
    let mut scoreboard: Vec<usize> = Vec::new();
    scoreboard.push(3);
    scoreboard.push(7);
    let mut elves: Vec<Elf> = Vec::new();
    elves.push(Elf::new(0));
    elves.push(Elf::new(1));
    let ghost mut steps: nat = 0;
    assert(scoreboard@ =~= kitchen_after(0).board);
    while scoreboard.len() < recipes_to_make + 10
        invariant
            recipes_to_make <= RECIPE_LIMIT,
            elves@.len() == 2,
            scoreboard@ == kitchen_after(steps).board,
            elves@[0].current_recipe == kitchen_after(steps).first,
            elves@[1].current_recipe == kitchen_after(steps).second,
            scoreboard@.len() <= recipes_to_make + 11,
        decreases recipes_to_make + 11 - scoreboard@.len(),
    {
        proof {
            lemma_kitchen_ok(steps);
            lemma_kitchen_ok(steps + 1);
            let k = kitchen_after(steps);
            lemma_digits_small((k.board[k.first] + k.board[k.second]) as nat);
            let s = (k.board[k.first] + k.board[k.second]) as nat;
            if s >= 10 {
                assert(s / 10 < 10);
            }
        }
        cook(&mut scoreboard, &mut elves, Ghost(steps));
        proof {
            steps = steps + 1;
        }
    }
    let mut chars: Vec<char> = Vec::new();
    let mut i: usize = recipes_to_make;
    proof {
        lemma_kitchen_ok(steps);
    }
    while i < recipes_to_make + 10
        invariant
            recipes_to_make <= RECIPE_LIMIT,
            recipes_to_make <= i <= recipes_to_make + 10,
            scoreboard@.len() >= recipes_to_make + 10,
            scoreboard@ == kitchen_after(steps).board,
            kitchen_ok(kitchen_after(steps)),
            chars@ == digit_chars(scoreboard@.subrange(recipes_to_make as int, i as int)),
        decreases recipes_to_make + 10 - i,
    {
        let d = scoreboard[i];
        chars.push(digit_char(d));
        proof {
            let s = scoreboard@.subrange(recipes_to_make as int, i as int + 1);
            assert(s.drop_last() =~= scoreboard@.subrange(recipes_to_make as int, i as int));
        }
        i = i + 1;
    }
    string_from(&chars)
}

/// The character of a decimal digit.
pub open spec fn digit_char_spec(d: usize) -> char {
    if d == 0 { '0' } else if d == 1 { '1' } else if d == 2 { '2' } else if d == 3 { '3' }
    else if d == 4 { '4' } else if d == 5 { '5' } else if d == 6 { '6' } else if d == 7 { '7' }
    else if d == 8 { '8' } else { '9' }
}

pub fn digit_char(d: usize) -> (r: char)
    ensures
        r == digit_char_spec(d),
{
    if d == 0 { '0' } else if d == 1 { '1' } else if d == 2 { '2' } else if d == 3 { '3' }
    else if d == 4 { '4' } else if d == 5 { '5' } else if d == 6 { '6' } else if d == 7 { '7' }
    else if d == 8 { '8' } else { '9' }
}

/// The characters of a sequence of digits.
pub open spec fn digit_chars(s: Seq<usize>) -> Seq<char>
    decreases s.len(),
{
    if s.len() == 0 {
        seq![]
    } else {
        digit_chars(s.drop_last()).push(digit_char_spec(s.last()))
    }
}

/// `pattern` ends the board at position `end`.
pub open spec fn ends_with_at(board: Seq<usize>, pattern: Seq<usize>, end: int) -> bool {
    pattern.len() <= end <= board.len() && board.subrange(end - pattern.len(), end) == pattern
}

/// `pattern` ends the board at no position from 3, the board's length after
/// the first new recipe, up to but not including `end`.
pub open spec fn no_match_before(board: Seq<usize>, pattern: Seq<usize>, end: int) -> bool {
    forall|e: int| 3 <= e < end ==> !#[trigger] ends_with_at(board, pattern, e)
}

/// How many recipes come before the first place where the scores read
/// `input`; `None` if the board reaches `RECIPE_LIMIT` recipes first.
pub fn star_two(input: &[usize]) -> (r: Option<usize>)
    ensures
        r matches Some(count) ==> exists|n: nat|
            ends_with_at(#[trigger] kitchen_after(n).board, input@, count + input@.len())
                && count + input@.len() >= 3 && no_match_before(
                kitchen_after(n).board,
                input@,
                count + input@.len() as int,
            ),
        r is None ==> exists|n: nat|
            #[trigger] kitchen_after(n).board.len() >= RECIPE_LIMIT && no_match_before(
                kitchen_after(n).board,
                input@,
                kitchen_after(n).board.len() as int + 1,
            ),
{
    let mut scoreboard: Vec<usize> = Vec::new();
    scoreboard.push(3);
    scoreboard.push(7);
    let mut elves: Vec<Elf> = Vec::new();
    elves.push(Elf::new(0));
    elves.push(Elf::new(1));
    let ghost mut steps: nat = 0;
    assert(scoreboard@ =~= kitchen_after(0).board);
    let mut checked: usize = 2;
    while scoreboard.len() < RECIPE_LIMIT
        invariant
            elves@.len() == 2,
            scoreboard@ == kitchen_after(steps).board,
            elves@[0].current_recipe == kitchen_after(steps).first,
            elves@[1].current_recipe == kitchen_after(steps).second,
            scoreboard@.len() <= RECIPE_LIMIT + 2,
            2 <= checked <= scoreboard@.len(),
            no_match_before(scoreboard@, input@, checked + 1),
        decreases RECIPE_LIMIT + 2 - scoreboard@.len(),
    {
        while checked < scoreboard.len()
            invariant
                2 <= checked <= scoreboard@.len(),
                scoreboard@ == kitchen_after(steps).board,
                no_match_before(scoreboard@, input@, checked + 1),
            decreases scoreboard@.len() - checked,
        {
            checked = checked + 1;
            if checked >= input.len() && matches_at(scoreboard.as_slice(), input, checked) {
                assert(ends_with_at(kitchen_after(steps).board, input@, (checked - input.len()) + input@.len()));
                return Some(checked - input.len());
            }
            assert(!ends_with_at(scoreboard@, input@, checked as int));
        }
        let ghost before = scoreboard@;
        assert(no_match_before(before, input@, checked + 1));
        assert(checked == before.len());
        proof {
            lemma_kitchen_ok(steps);
            let k = kitchen_after(steps);
            lemma_digits_small((k.board[k.first] + k.board[k.second]) as nat);
        }
        cook(&mut scoreboard, &mut elves, Ghost(steps));
        proof {
            steps = steps + 1;
            lemma_kitchen_ok(steps);
            let k = kitchen_after((steps - 1) as nat);
            let s = (k.board[k.first] + k.board[k.second]) as nat;
            lemma_digits_small(s);
            if s >= 10 {
                assert(s / 10 < 10);
            }
            assert(kitchen_after(steps) == step(kitchen_after((steps - 1) as nat)));
            assert(scoreboard@.subrange(0, before.len() as int) =~= before);
            assert forall|e: int| 3 <= e < checked + 1 implies !#[trigger] ends_with_at(scoreboard@, input@, e) by {
                assert(!ends_with_at(before, input@, e));
                if ends_with_at(scoreboard@, input@, e) {
                    assert(scoreboard@.subrange(e - input@.len(), e) =~= before.subrange(e - input@.len(), e));
                    assert(ends_with_at(before, input@, e));
                }
            };
        }
    }
    while checked < scoreboard.len()
        invariant
            2 <= checked <= scoreboard@.len(),
            scoreboard@ == kitchen_after(steps).board,
            scoreboard@.len() >= RECIPE_LIMIT,
            no_match_before(scoreboard@, input@, checked + 1),
        decreases scoreboard@.len() - checked,
    {
        checked = checked + 1;
        if checked >= input.len() && matches_at(scoreboard.as_slice(), input, checked) {
            assert(ends_with_at(kitchen_after(steps).board, input@, (checked - input.len()) + input@.len()));
            return Some(checked - input.len());
        }
        assert(!ends_with_at(scoreboard@, input@, checked as int));
    }
    proof {
        assert(no_match_before(kitchen_after(steps).board, input@, kitchen_after(steps).board.len() as int + 1));
    }
    None
}

/// Whether `pattern` ends `board` at position `end`.
pub fn matches_at(board: &[usize], pattern: &[usize], end: usize) -> (r: bool)
    requires
        pattern@.len() <= end <= board@.len(),
    ensures
        r == ends_with_at(board@, pattern@, end as int),
{
    let start = end - pattern.len();
    let mut i: usize = 0;
    while i < pattern.len()
        invariant
            start + pattern@.len() == end <= board@.len(),
            i <= pattern@.len(),
            forall|j: int| 0 <= j < i ==> board@[start + j] == pattern@[j],
        decreases pattern@.len() - i,
    {
        if board[start + i] != pattern[i] {
            assert(board@.subrange(start as int, end as int)[i as int] != pattern@[i as int]);
            return false;
        }
        i = i + 1;
    }
    assert(board@.subrange(start as int, end as int) =~= pattern@);
    true
}

} // verus!
