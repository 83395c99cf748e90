//! A deterministic xorshift64 random number generator.
use vstd::prelude::*;

verus! {

/// One step of the xorshift64 recurrence (shifts 13, 7, 17); every shift
/// drops the bits that leave the 64-bit word.
pub open spec fn xorshift(s: u64) -> u64 {
    let a = s ^ (s << 13u64);
    let b = a ^ (a >> 7u64);
    b ^ (b << 17u64)
}

/// The state reached from `s` after `k` steps.
pub open spec fn xorshift_iter(s: u64, k: nat) -> u64
    decreases k,
{
    if k == 0 {
        s
    } else {
        xorshift(xorshift_iter(s, (k - 1) as nat))
    }
}

/// `s` with the elements at `i` and `j` exchanged.
pub open spec fn swapped<T>(s: Seq<T>, i: int, j: int) -> Seq<T> {
    s.update(i, s[j]).update(j, s[i])
}

/// The index in `0..=i` that the generator state `state` selects.
pub open spec fn pick(state: u64, i: nat) -> int {
    ((state as usize) % ((i + 1) as usize)) as int
}

/// The Fisher-Yates passes for positions `i, i - 1, ..., 1`, each drawing a
/// fresh state and exchanging position `i` with the picked index; yields the
/// sequence and the generator state after the last pass.
pub open spec fn fisher_yates<T>(s: Seq<T>, state: u64, i: nat) -> (Seq<T>, u64)
    decreases i,
{
    if i == 0 {
        (s, state)
    } else {
        let st = xorshift(state);
        fisher_yates(swapped(s, i as int, pick(st, i)), st, (i - 1) as nat)
    }
}

/// What `Rng::shuffle` leaves: the shuffled sequence and the generator state.
pub open spec fn shuffled<T>(s: Seq<T>, state: u64) -> (Seq<T>, u64) {
    if s.len() == 0 {
        (s, state)
    } else {
        fisher_yates(s, state, (s.len() - 1) as nat)
    }
}

/// Exchanges two elements of a slice (`<[T]>::swap`); both indices must be
/// in bounds, as the slice method panics otherwise.
#[verifier::external_body]
fn slice_swap<T>(slice: &mut [T], a: usize, b: usize)
    requires
        a < old(slice)@.len(),
        b < old(slice)@.len(),
    ensures
        final(slice)@ == swapped(old(slice)@, a as int, b as int),
{
    slice.swap(a, b)
}

/// A seeded pseudo-random generator; its whole state is one 64-bit word.
pub struct Rng {
    state: u64,
}

impl View for Rng {
    type V = u64;

    closed spec fn view(&self) -> u64 {
        self.state
    }
}

impl Rng {
    /// A generator whose state is the seed.
    pub fn new(seed: u64) -> (r: Rng)
        ensures
            r@ == seed,
    {
        Rng { state: seed }
    }

    /// Advances the state by one xorshift64 step and returns the new state.
    pub fn next_u64(&mut self) -> (r: u64)
        ensures
            r == xorshift(old(self)@),
            final(self)@ == r,
    {
        self.state = self.state ^ (self.state << 13u64);
        self.state = self.state ^ (self.state >> 7u64);
        self.state = self.state ^ (self.state << 17u64);
        self.state
    }

    /// Fisher-Yates shuffle in place: for `i` from `len - 1` down to `1`,
    /// draws the next value `r` and exchanges positions `i` and
    /// `r % (i + 1)`.
    pub fn shuffle<T>(&mut self, slice: &mut [T])
        ensures
            (final(slice)@, final(self)@) == shuffled(old(slice)@, old(self)@),
            final(slice)@.to_multiset() == old(slice)@.to_multiset(),
            old(slice)@.len() >= 2 ==> final(slice)@.last() == old(slice)@[((xorshift(old(self)@)
                as usize) % (old(slice)@.len() as usize)) as int],
    {
        let n = slice.len();
        proof {
            lemma_shuffle_permutes(slice@, self@);
            if n >= 2 {
                lemma_shuffle_places_last(slice@, self@);
            }
        }
        if n == 0 {
            return ;
        }
        let ghost target = shuffled(slice@, self@);
        let mut i: usize = n;
        while i > 1
            invariant
                1 <= i <= n,
                n == slice@.len(),
                fisher_yates(slice@, self@, (i - 1) as nat) == target,
            decreases i,
        {
            i = i - 1;
            let r = self.next_u64();
            let j = (r as usize) % (i + 1);
            slice_swap(slice, i, j);
        }
    }
}

/// A nonzero state never steps to zero: each of the three xor-shift stages
/// keeps a nonzero word nonzero.
pub proof fn lemma_xorshift_nonzero(s: u64)
    requires
        s != 0,
    ensures
        xorshift(s) != 0,
{
    let a = s ^ (s << 13u64);
    let b = a ^ (a >> 7u64);
    assert(s != 0 ==> s ^ (s << 13u64) != 0) by (bit_vector);
    assert(a != 0 ==> a ^ (a >> 7u64) != 0) by (bit_vector);
    assert(b != 0 ==> b ^ (b << 17u64) != 0) by (bit_vector);
}

/// A generator seeded with a nonzero value never reaches the zero state, so
/// it never gets stuck there.
pub proof fn lemma_nonzero_seed_never_zero(seed: u64, k: nat)
    requires
        seed != 0,
    ensures
        xorshift_iter(seed, k) != 0,
    decreases k,
{
    if k > 0 {
        lemma_nonzero_seed_never_zero(seed, (k - 1) as nat);
        lemma_xorshift_nonzero(xorshift_iter(seed, (k - 1) as nat));
    }
}

/// The picked index lies in `0..=i`.
pub proof fn lemma_pick_in_range(state: u64, i: nat)
    requires
        i + 1 <= usize::MAX,
    ensures
        0 <= pick(state, i) <= i,
{
}

/// Exchanging two in-bounds positions keeps the length and the multiset of
/// elements.
pub proof fn lemma_swapped_permutes<T>(s: Seq<T>, i: int, j: int)
    requires
        0 <= i < s.len(),
        0 <= j < s.len(),
    ensures
        swapped(s, i, j).len() == s.len(),
        swapped(s, i, j).to_multiset() == s.to_multiset(),
{
    broadcast use vstd::seq_lib::to_multiset_update;
    broadcast use vstd::seq_lib::to_multiset_contains;
    broadcast use vstd::multiset::group_multiset_properties;
    let s1 = s.update(i, s[j]);
    assert(s1.to_multiset() == s.to_multiset().insert(s[j]).remove(s[i]));
    assert(s1[j] == s[j]);
    assert(s.contains(s[i]));
    assert(swapped(s, i, j).to_multiset() =~= s.to_multiset());
}

/// The Fisher-Yates passes over positions `i..=1` permute the sequence and
/// advance the state by exactly `i` steps.
pub proof fn lemma_fisher_yates<T>(s: Seq<T>, state: u64, i: nat)
    requires
        i < s.len(),
        s.len() <= usize::MAX,
    ensures
        fisher_yates(s, state, i).0.len() == s.len(),
        fisher_yates(s, state, i).0.to_multiset() == s.to_multiset(),
        fisher_yates(s, state, i).1 == xorshift_iter(state, i),
    decreases i,
{
    if i > 0 {
        let st = xorshift(state);
        let j = pick(st, i);
        lemma_pick_in_range(st, i);
        lemma_swapped_permutes(s, i as int, j);
        lemma_fisher_yates(swapped(s, i as int, j), st, (i - 1) as nat);
        lemma_xorshift_iter_first(state, i);
    }
}

/// Taking the first step before the remaining `k - 1` ones reaches the same
/// state as `k` steps.
pub proof fn lemma_xorshift_iter_first(s: u64, k: nat)
    requires
        k > 0,
    ensures
        xorshift_iter(xorshift(s), (k - 1) as nat) == xorshift_iter(s, k),
    decreases k,
{
    if k > 1 {
        lemma_xorshift_iter_first(s, (k - 1) as nat);
        assert(xorshift_iter(xorshift(s), (k - 1) as nat) == xorshift(
            xorshift_iter(xorshift(s), (k - 2) as nat),
        ));
    } else {
        assert(xorshift_iter(s, 0) == s);
        assert(xorshift_iter(xorshift(s), 0) == xorshift(s));
    }
}

/// A shuffle only reorders: the result has the same length and the same
/// multiset of elements as its input.
pub proof fn lemma_shuffle_permutes<T>(s: Seq<T>, state: u64)
    requires
        s.len() <= usize::MAX,
    ensures
        shuffled(s, state).0.len() == s.len(),
        shuffled(s, state).0.to_multiset() == s.to_multiset(),
{
    if s.len() > 0 {
        lemma_fisher_yates(s, state, (s.len() - 1) as nat);
    }
}

/// A shuffle of `n > 0` elements draws exactly `n - 1` values from the
/// generator; an empty slice draws none.
pub proof fn lemma_shuffle_draws<T>(s: Seq<T>, state: u64)
    requires
        s.len() <= usize::MAX,
    ensures
        shuffled(s, state).1 == xorshift_iter(state, if s.len() == 0 { 0 } else { (s.len() - 1) as nat }),
{
    if s.len() > 0 {
        lemma_fisher_yates(s, state, (s.len() - 1) as nat);
    }
}

/// The passes over positions `i..=1` touch nothing above `i`: they act on
/// the first `i + 1` elements alone and leave the rest in place.
proof fn lemma_fisher_yates_prefix<T>(s: Seq<T>, state: u64, i: nat)
    requires
        i < s.len(),
        s.len() <= usize::MAX,
    ensures
        fisher_yates(s, state, i).0 == fisher_yates(s.take(i + 1int), state, i).0 + s.skip(i + 1int),
        fisher_yates(s, state, i).1 == fisher_yates(s.take(i + 1int), state, i).1,
    decreases i,
{
    if i == 0 {
        assert(s =~= s.take(1) + s.skip(1));
    } else {
        let st = xorshift(state);
        let p = pick(st, i);
        lemma_pick_in_range(st, i);
        let s1 = swapped(s, i as int, p);
        let t1 = swapped(s.take(i + 1int), i as int, p);
        lemma_fisher_yates_prefix(s1, st, (i - 1) as nat);
        lemma_fisher_yates_prefix(t1, st, (i - 1) as nat);
        assert(t1.take(i as int) =~= s1.take(i as int));
        assert(s1.skip(i as int) =~= t1.skip(i as int) + s.skip(i + 1int));
    }
}

/// Fisher-Yates, stated by what it does to the last position: with `r` the
/// first value drawn, the element at index `r % n` moves to the end, the old
/// last element takes its place, and the first `n - 1` positions are then
/// shuffled by the same rule from state `r`; every index in `0..n` can be
/// the one picked, whatever `n` is.
pub proof fn lemma_shuffle_places_last<T>(s: Seq<T>, state: u64)
    requires
        2 <= s.len() <= usize::MAX,
    ensures
        ({
            let n = s.len();
            let r = xorshift(state);
            let j = ((r as usize) % (n as usize)) as int;
            let rest = s.update(j, s[n - 1]).take(n - 1);
            &&& 0 <= j < n
            &&& shuffled(s, state).0 == shuffled(rest, r).0.push(s[j])
            &&& shuffled(s, state).1 == shuffled(rest, r).1
        }),
{
    let n = s.len();
    let r = xorshift(state);
    let i = (n - 1) as nat;
    let j = pick(r, i);
    lemma_pick_in_range(r, i);
    assert(j == ((r as usize) % (n as usize)) as int);
    let s1 = swapped(s, i as int, j);
    let rest = s.update(j, s[n - 1]).take(n - 1);
    assert(s1.take(n - 1) =~= rest);
    lemma_fisher_yates_prefix(s1, r, (i - 1) as nat);
    assert(s1.skip(n - 1) =~= seq![s[j]]);
    assert(s1.take(i as int) == s1.take(((i - 1) + 1) as int));
    assert(shuffled(rest, r) == fisher_yates(rest, r, (i - 1) as nat));
    assert(shuffled(s, state).0 =~= shuffled(rest, r).0.push(s[j]));
}

} // verus!
