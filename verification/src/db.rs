//! What the database holds, and which of it a sample keeps.

use vstd::prelude::*;

use crate::mutate::{Mutant, Status};

verus! {

broadcast use vstd::seq_lib::group_seq_properties;

/// One row of coverage.py's data file: the lines of a file that ran in a
/// context, as a bitmap.
pub struct CoverageRow {
    pub file: String,
    pub context_id: i64,
    pub context: String,
    pub numbits: Vec<u8>,
}

/// A mutant and what became of it.
pub struct Settled {
    pub mutant: Mutant,
    /// None while the mutant is still pending.
    pub status: Option<Status>,
    /// Whether any test ran it.
    pub executed: bool,
    pub duration_ms: Option<i64>,
    pub failed_tests: Vec<String>,
}

impl Settled {
    /// The rule this mutant raises, if it raises one.
    pub open spec fn rule(self) -> Option<Seq<char>> {
        match self.status {
            Some(status) => status.raises(self.executed),
            None => None,
        }
    }

    /// The SonarQube rule id this mutant raises. A pending one raises none.
    pub fn raises(&self) -> (rule: Option<&'static str>)
        ensures
            rule.is_some() == self.rule().is_some(),
            rule.is_some() ==> rule.unwrap()@ == self.rule().unwrap(),
    {
        match self.status {
            Some(status) => status.sonar_rule(self.executed),
            None => None,
        }
    }
}

/// Small deterministic PRNG. A dependency would buy nothing here: sampling
/// needs spread, not cryptographic quality.
#[derive(Debug, Clone, Copy)]
pub struct Xorshift(u64);

/// A seed mixed so that neighbouring seeds start apart.
pub open spec fn mixed(seed: u64) -> u64 {
    ((seed * 6364136223846793005 + 1) % 0x1_0000_0000_0000_0000) as u64
}

/// Where a generator with this seed starts. 0 is a fixed point of xorshift, so
/// it never starts there.
pub open spec fn start_of(seed: u64) -> u64 {
    if mixed(seed) == 0 {
        1
    } else {
        mixed(seed)
    }
}

/// One step of the generator.
pub open spec fn step(state: u64) -> u64 {
    let once = state ^ (state << 13);
    let twice = once ^ (once >> 7);
    twice ^ (twice << 17)
}

impl View for Xorshift {
    type V = u64;

    closed spec fn view(&self) -> u64 {
        self.0
    }
}

impl Xorshift {
    pub fn seeded(seed: u64) -> (random: Xorshift)
        ensures
            random@ == start_of(seed),
            random@ != 0,
    {
        let product: u64 = seed.wrapping_mul(6364136223846793005);
        let state: u64 = product.wrapping_add(1);
        proof {
            let exact = seed * 6364136223846793005;
            let modulus = 0x1_0000_0000_0000_0000int;
            assert(product as int == exact % modulus);
            assert((exact % modulus + 1) % modulus == (exact + 1) % modulus) by {
                vstd::arithmetic::div_mod::lemma_add_mod_noop(exact, 1, modulus);
            }
            assert(state == mixed(seed));
        }
        if state == 0 {
            Xorshift(1)
        } else {
            Xorshift(state)
        }
    }

    pub fn next(&mut self) -> (drawn: u64)
        ensures
            final(self)@ == step(old(self)@),
            drawn == final(self)@,
    {
        self.0 = self.0 ^ (self.0 << 13);
        self.0 = self.0 ^ (self.0 >> 7);
        self.0 = self.0 ^ (self.0 << 17);
        self.0
    }
}

/// A generator that has not stopped never stops: no step leads to the fixed
/// point.
pub proof fn law_the_generator_never_stops(state: u64)
    requires
        state != 0,
    ensures
        step(state) != 0,
{
    let once = state ^ (state << 13);
    let twice = once ^ (once >> 7);
    assert(once != 0) by (bit_vector)
        requires
            state != 0,
            once == state ^ (state << 13),
    ;
    assert(twice != 0) by (bit_vector)
        requires
            once != 0,
            twice == once ^ (once >> 7),
    ;
    assert(twice ^ (twice << 17) != 0) by (bit_vector)
        requires
            twice != 0,
    ;
}

/// A generator seeded from the clock, in nanoseconds since the epoch, or from a
/// fixed number when the clock stands before it.
pub fn get_random(nanos: Option<u64>) -> (random: Xorshift)
    ensures
        random@ == start_of(
            match nanos {
                Some(nanos) => nanos,
                None => 1000,
            },
        ),
{
    let seed: u64 = match nanos {
        Some(nanos) => nanos,
        None => 1000,
    };
    Xorshift::seeded(seed)
}

/// A list with two places exchanged.
pub open spec fn exchanged(list: Seq<i64>, a: int, b: int) -> Seq<i64> {
    list.update(a, list[b]).update(b, list[a])
}

/// Fisher-Yates from this place down: each place is exchanged with one at or
/// below it.
pub open spec fn shuffled(list: Seq<i64>, state: u64, index: int) -> Seq<i64>
    decreases index,
{
    if index < 1 {
        list
    } else {
        let drawn = step(state);
        shuffled(exchanged(list, index, drawn as int % (index + 1)), drawn, index - 1)
    }
}

/// Shuffles a list.
pub fn shuffle(list: Vec<i64>, random: Xorshift) -> (out: Vec<i64>)
    ensures
        out@ == shuffled(list@, random@, list@.len() - 1),
{
    let mut random: Xorshift = random;
    let ghost all = list@;
    let ghost start = random@;
    let mut out: Vec<i64> = list;
    if out.len() == 0 {
        return out;
    }
    let mut index: usize = out.len() - 1;
    while index > 0
        invariant
            index < out@.len(),
            out@.len() == all.len(),
            shuffled(all, start, all.len() - 1) == shuffled(out@, random@, index as int),
        decreases index,
    {
        let drawn: u64 = random.next();
        let other: usize = (drawn as u128 % (index as u128 + 1)) as usize;
        let here: i64 = out[index];
        let there: i64 = out[other];
        let ghost before = out@;
        out.set(index, there);
        out.set(other, here);
        assert(out@ =~= exchanged(before, index as int, drawn as int % (index + 1)));
        index -= 1;
    }
    out
}

/// The ids a sample of this size leaves out: everything past the ones it keeps,
/// once the pool has been shuffled.
pub open spec fn left_out(list: Seq<i64>, keep: int, state: u64) -> Seq<i64> {
    if list.len() <= keep {
        Seq::empty()
    } else {
        shuffled(list, state, list.len() - 1).subrange(keep, list.len() as int)
    }
}

/// Which of the enumerated mutants a sample leaves out.
///
/// They are dropped from the pool, not merely left unrun: the surviving rows
/// ARE the study, so the score is an estimate over a random sample of the whole
/// codebase rather than a complete census of one arbitrary corner of it.
pub fn sample_down_to(list: Vec<i64>, keep: usize, random: Xorshift) -> (dropped: Vec<i64>)
    ensures
        dropped@ == left_out(list@, keep as int, random@),
{
    if list.len() <= keep {
        return Vec::new();
    }
    let ghost all = list@;
    proof {
        lemma_shuffled(all, random@, all.len() - 1);
    }
    let mut mixed: Vec<i64> = shuffle(list, random);
    mixed.split_off(keep)
}

proof fn lemma_exchanged(list: Seq<i64>, a: int, b: int)
    requires
        0 <= a < list.len(),
        0 <= b < list.len(),
    ensures
        exchanged(list, a, b).len() == list.len(),
        exchanged(list, a, b).to_multiset() == list.to_multiset(),
{
    broadcast use vstd::seq_lib::group_to_multiset_ensures;

    vstd::seq_lib::to_multiset_update(list, a, list[b]);
    vstd::seq_lib::to_multiset_update(list.update(a, list[b]), b, list[a]);
    let once = list.update(a, list[b]);
    assert(once[b] == list[b]);
    assert(exchanged(list, a, b).to_multiset() =~= list.to_multiset());
}

proof fn lemma_shuffled(list: Seq<i64>, state: u64, index: int)
    requires
        index < list.len(),
    ensures
        shuffled(list, state, index).len() == list.len(),
        shuffled(list, state, index).to_multiset() == list.to_multiset(),
    decreases index,
{
    if index >= 1 {
        let drawn = step(state);
        let other = drawn as int % (index + 1);
        lemma_exchanged(list, index, other);
        lemma_shuffled(exchanged(list, index, other), drawn, index - 1);
    }
}

/// A shuffle loses nothing and invents nothing: every id comes out as often as
/// it went in.
pub proof fn law_a_shuffle_is_a_permutation(list: Seq<i64>, state: u64)
    ensures
        shuffled(list, state, list.len() - 1).to_multiset() == list.to_multiset(),
        shuffled(list, state, list.len() - 1).len() == list.len(),
{
    lemma_shuffled(list, state, list.len() - 1);
}

/// A sample leaves out exactly what it has no room for, and only ids of the
/// pool.
pub proof fn law_a_sample_leaves_out_the_overflow(list: Seq<i64>, keep: nat, state: u64)
    ensures
        left_out(list, keep as int, state).len() == if list.len() <= keep {
            0
        } else {
            list.len() - keep
        },
        forall|id: i64| left_out(list, keep as int, state).contains(id) ==> list.contains(id),
{
    broadcast use vstd::seq_lib::group_to_multiset_ensures;

    lemma_shuffled(list, state, list.len() - 1);
    let mixed = shuffled(list, state, list.len() - 1);
    let out = left_out(list, keep as int, state);
    assert forall|id: i64| out.contains(id) implies list.contains(id) by {
        let k = choose|k: int| 0 <= k < out.len() && out[k] == id;
        assert(mixed[keep + k] == id);
        assert(mixed.contains(id));
        assert(mixed.to_multiset().count(id) > 0);
        assert(list.to_multiset().count(id) > 0);
    }
}

proof fn lemma_shuffle_stays_below(list: Seq<i64>, state: u64, index: int, at: int)
    requires
        index < at < list.len(),
    ensures
        shuffled(list, state, index).len() == list.len(),
        shuffled(list, state, index)[at] == list[at],
    decreases index,
{
    if index >= 1 {
        let drawn = step(state);
        let other = drawn as int % (index + 1);
        let next = exchanged(list, index, other);
        assert(next[at] == list[at]);
        lemma_shuffle_stays_below(next, drawn, index - 1, at);
    }
}

/// Each place of a shuffle, from the last one down, gets one of the ids that are
/// left, itself counted: the number drawn for it decides which.
pub proof fn law_a_place_is_drawn_from_all_that_are_left(list: Seq<i64>, state: u64, index: int)
    requires
        1 <= index < list.len(),
    ensures
        shuffled(list, state, index)[index] == list[step(state) as int % (index + 1)],
{
    let drawn = step(state);
    let other = drawn as int % (index + 1);
    let next = exchanged(list, index, other);
    assert(next[index] == list[other]);
    lemma_shuffle_stays_below(next, drawn, index - 1, index);
}

/// A step of the generator shifts by thirteen, seven and seventeen bits, and
/// what it mixes a seed with is a fixed multiple of it and one.
pub proof fn law_the_generator_is_xorshift(state: u64, seed: u64)
    ensures
        exists|once: u64, twice: u64|
            once == state ^ (state << 13) && twice == once ^ #[trigger] (once >> 7) && step(state)
                == twice ^ #[trigger] (twice << 17),
        exists|times: int|
            seed * 6364136223846793005 + 1 == #[trigger] (times * 0x1_0000_0000_0000_0000)
                + mixed(seed),
{
    let once = state ^ (state << 13);
    let twice = once ^ (once >> 7);
    assert(step(state) == twice ^ (twice << 17));
    assert(twice == once ^ (once >> 7));
    let exact = seed * 6364136223846793005 + 1;
    vstd::arithmetic::div_mod::lemma_fundamental_div_mod(exact, 0x1_0000_0000_0000_0000);
    let times = exact / 0x1_0000_0000_0000_0000;
    assert(times * 0x1_0000_0000_0000_0000 + mixed(seed) == exact);
}

/// What a sample keeps and what it leaves out are together the pool, and it
/// keeps as many as it was asked to.
pub proof fn law_a_sample_keeps_the_rest(list: Seq<i64>, keep: nat, state: u64)
    requires
        keep < list.len(),
    ensures
        ({
            let mixed = shuffled(list, state, list.len() - 1);
            &&& mixed.take(keep as int) + left_out(list, keep as int, state) == mixed
            &&& mixed.to_multiset() == list.to_multiset()
        }),
{
    lemma_shuffled(list, state, list.len() - 1);
    let mixed = shuffled(list, state, list.len() - 1);
    assert(mixed.take(keep as int) + left_out(list, keep as int, state) =~= mixed);
}

} // verus!
