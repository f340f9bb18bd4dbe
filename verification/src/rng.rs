//! A seeded 32-bit xorshift generator whose output is a function of the seed
//! and of the order of the calls made on it.

use vstd::prelude::*;
use vstd::arithmetic::div_mod::{
    lemma_div_is_ordered, lemma_div_multiples_vanish, lemma_fundamental_div_mod,
    lemma_mod_multiples_basic,
};
use vstd::arithmetic::power2::{lemma2_to64, lemma2_to64_rest, lemma_pow2_adds, pow2};
use crate::rounding::{
    grid_step, lemma_grid_step_divides, lemma_grid_step_divides_units, lemma_round_keeps_side,
    round_to_53_bits, round_to_grid, UNITS,
};

verus! {

/// One xorshift round: three shift-and-xor steps, each feeding the next.
pub open spec fn xorshift_spec(value: u32) -> u32 {
    let a: u32 = value ^ (value << 13u32);
    let b: u32 = a ^ (a >> 17u32);
    b ^ (b << 5u32)
}

/// The state reached from `value` after `n` rounds.
pub open spec fn xorshift_iter(value: u32, n: nat) -> u32
    decreases n,
{
    if n == 0 {
        value
    } else {
        xorshift_iter(xorshift_spec(value), (n - 1) as nat)
    }
}

/// The fraction `word / u32::MAX` as a double holds it: rounded to 53
/// significant bits, and counted in units of 2^-84.
pub open spec fn word_fraction(word: u32) -> nat {
    round_to_grid(word as nat * (UNITS as nat), u32::MAX as nat)
}

/// Whether the fraction `word / u32::MAX`, as a double holds it, lies above
/// one half.
pub open spec fn word_as_bool(word: u32) -> bool {
    2 * word_fraction(word) > UNITS
}

/// That fraction of a span, rounded once more as a double rounds a product.
pub open spec fn span_share(word: u32, span: nat) -> nat {
    round_to_grid(word_fraction(word) * span, 1)
}

/// The distance between the two ends of a range.
pub open spec fn range_span(min: u32, max: u32) -> nat {
    if max >= min {
        (max - min) as nat
    } else {
        (min - max) as nat
    }
}

/// The point of the span from `min` to `max` that a word selects, as
/// arithmetic on doubles gives it: the fraction `word / u32::MAX`, times
/// `max - min`, plus `min`, each of the three rounded to 53 significant bits
/// with ties to even, and the sum cut off toward zero. The word `u32::MAX`
/// selects `max` itself. `max` may lie below `min`: the share of the span is
/// then taken off `min`.
pub open spec fn word_in_range(word: u32, min: u32, max: u32) -> int {
    let share = span_share(word, range_span(min, max));
    let sum = if max >= min {
        min * UNITS + share
    } else {
        min * UNITS - share
    };
    (round_to_grid(sum as nat, 1) / (UNITS as nat)) as int
}

/// What a generator is made of: the seed it returns to on a reset and the
/// word it will transform on the next draw.
pub struct RngState {
    pub seed: u32,
    pub value: u32,
}

/// One call on a generator.
pub enum RngOp {
    Next,
    NextBool,
    NextU32Range { min: u32, max: u32 },
    Skip { iterations: u32 },
    Reset,
}

/// What a call on a generator hands back.
pub enum RngOutput {
    Word(u32),
    Flag(bool),
    Nothing,
}

impl RngState {
    /// The state right after construction from `seed`.
    pub open spec fn fresh(seed: u32) -> RngState {
        RngState { seed, value: seed }
    }

    /// Whether the state is as it was right after construction.
    pub open spec fn is_fresh(self) -> bool {
        self.value == self.seed
    }

    /// The state one round on.
    pub open spec fn advance(self) -> RngState {
        RngState { seed: self.seed, value: xorshift_spec(self.value) }
    }

    /// The state `n` rounds on.
    pub open spec fn advance_by(self, n: nat) -> RngState {
        RngState { seed: self.seed, value: xorshift_iter(self.value, n) }
    }

    /// The state back at its seed.
    pub open spec fn rewind(self) -> RngState {
        RngState::fresh(self.seed)
    }

    /// The state that a call leaves behind.
    pub open spec fn after(self, op: RngOp) -> RngState {
        match op {
            RngOp::Next | RngOp::NextBool => self.advance(),
            RngOp::NextU32Range { min, max } => if min == max {
                self
            } else {
                self.advance()
            },
            RngOp::Skip { iterations } => self.advance_by(iterations as nat),
            RngOp::Reset => self.rewind(),
        }
    }

    /// What a call returns.
    pub open spec fn output(self, op: RngOp) -> RngOutput {
        match op {
            RngOp::Next => RngOutput::Word(self.advance().value),
            RngOp::NextBool => RngOutput::Flag(word_as_bool(self.advance().value)),
            RngOp::NextU32Range { min, max } => RngOutput::Word(
                if min == max {
                    min
                } else {
                    word_in_range(self.advance().value, min, max) as u32
                },
            ),
            RngOp::Skip { .. } | RngOp::Reset => RngOutput::Nothing,
        }
    }

    /// The state after a sequence of calls, made in order.
    pub open spec fn after_all(self, ops: Seq<RngOp>) -> RngState
        decreases ops.len(),
    {
        if ops.len() == 0 {
            self
        } else {
            self.after(ops[0]).after_all(ops.drop_first())
        }
    }

    /// What a sequence of calls returns, call by call.
    pub open spec fn outputs(self, ops: Seq<RngOp>) -> Seq<RngOutput>
        decreases ops.len(),
    {
        if ops.len() == 0 {
            Seq::empty()
        } else {
            seq![self.output(ops[0])] + self.after(ops[0]).outputs(ops.drop_first())
        }
    }
}

/// The operating system's failure to hand out random bytes, as `getrandom`
/// reports it. Nothing is read from it.
#[verifier::external_type_specification]
#[verifier::external_body]
pub struct ExEntropyFailure(getrandom::Error);

/// `getrandom::u32`: one word from the system's random source, or the
/// failure it reports. Nothing is claimed of the word, and two calls may
/// differ.
pub assume_specification[ getrandom::u32 ]() -> (drawn: Result<u32, getrandom::Error>);

/// No seed could be drawn: the system's random source failed.
#[derive(Clone, Copy, Debug, PartialEq, Eq, Structural)]
pub struct EntropyUnavailable;

/// The seed of the auxiliary stream whose first word is added to a requested
/// seed.
pub const SEED_SALT_SOURCE: u32 = 1337;

/// The seed a run starts from. With no seed requested (zero), the first word
/// of a stream made from `entropy`; otherwise the requested seed plus the
/// first word of the stream made from `SEED_SALT_SOURCE`, modulo 2^32, which
/// sets neighbouring requests far apart.
pub open spec fn resolved_seed(requested: u32, entropy: u32) -> u32 {
    if requested == 0 {
        xorshift_spec(entropy)
    } else {
        salted_seed(requested)
    }
}

/// A requested seed plus the first word of the auxiliary stream, modulo 2^32.
pub open spec fn salted_seed(requested: u32) -> u32 {
    ((requested + xorshift_spec(SEED_SALT_SOURCE)) % 0x1_0000_0000) as u32
}

/// Resolves the seed of a run from the requested seed and a word of entropy,
/// which is read only where no seed was requested.
pub fn resolve_seed(requested: u32, entropy: u32) -> (seed: u32)
    ensures
        seed == resolved_seed(requested, entropy),
{
    if requested == 0 {
        Rng::from_seed(entropy).next()
    } else {
        requested.wrapping_add(Rng::from_seed(SEED_SALT_SOURCE).next())
    }
}

/// A generator of 32-bit words. It is advanced one call after another and
/// never copied: the order of the calls decides what each of them returns.
pub struct Rng {
    seed: u32,
    value: u32,
}

impl View for Rng {
    type V = RngState;

    closed spec fn view(&self) -> RngState {
        RngState { seed: self.seed, value: self.value }
    }
}

impl Rng {
    /// A generator seeded by the system's random source.
    pub fn new() -> (made: Result<Rng, EntropyUnavailable>)
        ensures
            made matches Ok(rng) ==> rng@.is_fresh(),
    {
        // Whether a word can be drawn is the system's to decide; what is
        // made of the draw is for `from_drawn` to say.
        let drawn: Result<u32, getrandom::Error> = getrandom::u32();
        Rng::from_drawn(drawn)
    }

    /// What becomes of a draw from the system's random source: a drawn word
    /// seeds a generator, and a failure to draw is passed on as
    /// `EntropyUnavailable`.
    pub fn from_drawn(drawn: Result<u32, getrandom::Error>) -> (made: Result<
        Rng,
        EntropyUnavailable,
    >)
        ensures
            drawn matches Ok(seed) ==> (made matches Ok(rng) && rng@ == RngState::fresh(seed)),
            drawn is Err ==> made == Err::<Rng, EntropyUnavailable>(EntropyUnavailable),
    {
        match drawn {
            Ok(seed) => Ok(Rng::from_seed(seed)),
            Err(_) => Err(EntropyUnavailable),
        }
    }

    /// The generator of a run: made from the resolved seed. The system's
    /// random source is asked only where no seed was requested, so a
    /// requested seed never fails.
    pub fn for_run(requested: u32) -> (made: Result<Rng, EntropyUnavailable>)
        ensures
            requested != 0 ==> (made matches Ok(rng) && rng@ == RngState::fresh(
                salted_seed(requested),
            )),
            made matches Ok(rng) ==> exists|entropy: u32|
                rng@ == RngState::fresh(resolved_seed(requested, entropy)),
    {
        if requested != 0 {
            Ok(Rng::from_seed(resolve_seed(requested, 0)))
        } else {
            match getrandom::u32() {
                Ok(entropy) => Ok(Rng::from_seed(resolve_seed(requested, entropy))),
                Err(_) => Err(EntropyUnavailable),
            }
        }
    }

    /// A generator that will replay the sequence determined by `seed`.
    pub fn from_seed(seed: u32) -> (rng: Rng)
        ensures
            rng@ == RngState::fresh(seed),
    {
        let mut rng = Rng { seed, value: 0 };
        rng.reset();
        rng
    }

    /// One xorshift round on a word.
    pub fn xorshift(value: u32) -> (next: u32)
        ensures
            next == xorshift_spec(value),
    {
        let a: u32 = value ^ (value << 13u32);
        let b: u32 = a ^ (a >> 17u32);
        b ^ (b << 5u32)
    }

    /// Advances the state by one round.
    pub fn recalculate(&mut self)
        ensures
            final(self)@ == old(self)@.advance(),
    {
        self.value = Rng::xorshift(self.value);
    }

    /// Returns to the seed: the calls that follow give what they gave right
    /// after construction.
    pub fn reset(&mut self)
        ensures
            final(self)@ == old(self)@.after(RngOp::Reset),
    {
        self.value = self.seed;
    }

    /// Advances the state as `iterations` draws would, returning nothing.
    pub fn skip(&mut self, iterations: u32)
        ensures
            final(self)@ == old(self)@.after(RngOp::Skip { iterations }),
    {
        let mut left: u32 = iterations;
        while left > 0
            invariant
                left <= iterations,
                self@.seed == old(self)@.seed,
                xorshift_iter(self@.value, left as nat) == xorshift_iter(
                    old(self)@.value,
                    iterations as nat,
                ),
            decreases left,
        {
            self.recalculate();
            left -= 1;
        }
    }

    /// Advances the state by one round and returns the new word.
    pub fn next(&mut self) -> (word: u32)
        ensures
            final(self)@ == old(self)@.after(RngOp::Next),
            old(self)@.output(RngOp::Next) == RngOutput::Word(word),
    {
        self.recalculate();
        self.value
    }

    /// Draws one word and maps it into the span from `min` to `pseudo_max`,
    /// as arithmetic on doubles does: the result is `word_in_range` of the
    /// word drawn, bit for bit what three rounded operations and a cut toward
    /// zero give. It may reach either end. Where the two ends are equal
    /// nothing is drawn: the state stays as it is.
    pub fn next_u32_range(&mut self, min: u32, pseudo_max: u32) -> (drawn: u32)
        ensures
            final(self)@ == old(self)@.after(RngOp::NextU32Range { min, max: pseudo_max }),
            old(self)@.output(RngOp::NextU32Range { min, max: pseudo_max }) == RngOutput::Word(
                drawn,
            ),
            min <= pseudo_max ==> min <= drawn <= pseudo_max,
            pseudo_max <= min ==> pseudo_max <= drawn <= min,
    {
        if min == pseudo_max {
            return min;
        }
        let word: u32 = self.next();
        proof {
            lemma_word_in_range(word, min, pseudo_max);
        }
        let fraction: u128 = round_to_53_bits(word as u128 * UNITS, 0xFFFF_FFFF);
        let span: u128 = if pseudo_max >= min {
            (pseudo_max - min) as u128
        } else {
            (min - pseudo_max) as u128
        };
        assert(fraction * span <= UNITS * 0xFFFF_FFFF) by (nonlinear_arith)
            requires
                fraction <= UNITS,
                span <= 0xFFFF_FFFF,
        ;
        let share: u128 = round_to_53_bits(fraction * span, 1);
        let sum: u128 = if pseudo_max >= min {
            min as u128 * UNITS + share
        } else {
            min as u128 * UNITS - share
        };
        let rounded: u128 = round_to_53_bits(sum, 1);
        (rounded / UNITS) as u32
    }

    /// Draws one word and tells whether it lies in the upper half.
    pub fn next_bool(&mut self) -> (flag: bool)
        ensures
            final(self)@ == old(self)@.after(RngOp::NextBool),
            old(self)@.output(RngOp::NextBool) == RngOutput::Flag(flag),
    {
        let word: u32 = self.next();
        proof {
            lemma_word_as_bool(word);
        }
        word > 0x7FFF_FFFF
    }
}

/// Rounding does not move the fraction of a word across one half: it lies
/// above one half exactly where the word lies in the upper half of the words.
pub proof fn lemma_word_as_bool(word: u32)
    ensures
        word_as_bool(word) == (word > 0x7FFF_FFFF),
{
    let one: nat = UNITS as nat;
    let full: nat = u32::MAX as nat;
    let scaled: nat = word as nat * one;
    let whole: nat = scaled / full;
    let step = grid_step(whole);
    lemma2_to64();
    lemma2_to64_rest();
    lemma_pow2_adds(64, 19);
    assert(scaled <= one * full && whole <= scaled) by (nonlinear_arith)
        requires
            scaled == word as nat * one,
            whole == scaled / full,
            word <= full,
            full >= 1,
    ;
    if word > 0x7FFF_FFFF {
        // At least one half and 2^51 units more, which is on the grid.
        let bound: nat = 0x800000000000000000000 + 0x8000000000000;
        lemma_grid_step_divides(whole, 51);
        lemma_fundamental_div_mod(pow2(51) as int, step as int);
        let times = pow2(51) / step;
        assert(bound == (times * 0x1_0000_0001) * step) by (nonlinear_arith)
            requires
                bound == 0x8000000000000 * 0x1_0000_0001,
                0x8000000000000 == step * times,
        ;
        lemma_mod_multiples_basic((times * 0x1_0000_0001) as int, step as int);
        assert(scaled >= bound * full) by (nonlinear_arith)
            requires
                scaled == word as nat * one,
                one == 0x1000000000000000000000,
                word >= 0x8000_0000,
                full == 0xFFFF_FFFF,
                bound == 0x800000000000000000000 + 0x8000000000000,
        ;
        lemma_round_keeps_side(scaled, full, bound);
    } else {
        let bound: nat = 0x800000000000000000000;
        lemma_grid_step_divides(whole, 83);
        assert(pow2(83) == bound);
        assert(scaled <= bound * full) by (nonlinear_arith)
            requires
                scaled == word as nat * one,
                one == 0x1000000000000000000000,
                word <= 0x7FFF_FFFF,
                full == 0xFFFF_FFFF,
                bound == 0x800000000000000000000,
        ;
        lemma_round_keeps_side(scaled, full, bound);
    }
}

/// Bounds of the three roundings behind `word_in_range`: the fraction is at
/// most one, the share of a span at most the span, and the point lies between
/// the two ends.
pub proof fn lemma_word_in_range(word: u32, min: u32, max: u32)
    ensures
        word_fraction(word) <= UNITS,
        span_share(word, range_span(min, max)) <= range_span(min, max) * UNITS,
        min <= max ==> min <= word_in_range(word, min, max) <= max,
        max <= min ==> max <= word_in_range(word, min, max) <= min,
{
    let one: nat = UNITS as nat;
    let full: nat = u32::MAX as nat;
    let span: nat = range_span(min, max);
    let low: nat = if min <= max {
        min as nat
    } else {
        max as nat
    };
    let high: nat = low + span;
    // The fraction.
    let scaled: nat = word as nat * one;
    assert(scaled <= one * full && scaled / full <= scaled) by (nonlinear_arith)
        requires
            scaled == word as nat * one,
            word <= full,
            full >= 1,
    ;
    lemma_grid_step_divides_units(scaled / full, 1);
    lemma_round_keeps_side(scaled, full, one);
    let fraction = word_fraction(word);
    // The share of the span.
    let product: nat = fraction * span;
    assert(product <= span * one) by (nonlinear_arith)
        requires
            product == fraction * span,
            fraction <= one,
    ;
    lemma_grid_step_divides_units(product / 1, span);
    lemma_round_keeps_side(product, 1, span * one);
    let share = span_share(word, span);
    // The sum.
    let sum: nat = if max >= min {
        (min * one + share) as nat
    } else {
        (min * one - share) as nat
    };
    assert(low * one <= sum <= high * one) by (nonlinear_arith)
        requires
            share <= span * one,
            high == low + span,
            max >= min ==> low == min && sum == min * one + share,
            max < min ==> high == min && sum == min * one - share,
    ;
    lemma_grid_step_divides_units(sum / 1, low);
    lemma_grid_step_divides_units(sum / 1, high);
    lemma_round_keeps_side(sum, 1, low * one);
    lemma_round_keeps_side(sum, 1, high * one);
    let rounded = round_to_grid(sum, 1);
    lemma_div_is_ordered((low * one) as int, rounded as int, one as int);
    lemma_div_is_ordered(rounded as int, (high * one) as int, one as int);
    lemma_div_multiples_vanish(low as int, one as int);
    lemma_div_multiples_vanish(high as int, one as int);
    assert(low * one == one * low && high * one == one * high) by (nonlinear_arith);
}

/// The state keeps its seed whatever calls are made.
pub proof fn lemma_seed_is_kept(state: RngState, ops: Seq<RngOp>)
    ensures
        state.after_all(ops).seed == state.seed,
    decreases ops.len(),
{
    if ops.len() > 0 {
        lemma_seed_is_kept(state.after(ops[0]), ops.drop_first());
    }
}

/// Two generators made from one seed answer any sequence of calls, made in
/// the same order, with the same outputs, and end in the same state.
pub proof fn lemma_same_seed_same_outputs(a: RngState, b: RngState, ops: Seq<RngOp>)
    requires
        a.is_fresh(),
        b.is_fresh(),
        a.seed == b.seed,
    ensures
        a.outputs(ops) == b.outputs(ops),
        a.after_all(ops) == b.after_all(ops),
{
}

/// After a reset, whatever calls came before it, a sequence of calls gives
/// the outputs it gives on a generator just made from the same seed.
pub proof fn lemma_reset_replays(seed: u32, before: Seq<RngOp>, ops: Seq<RngOp>)
    ensures
        RngState::fresh(seed).after_all(before).after(RngOp::Reset).outputs(ops)
            == RngState::fresh(seed).outputs(ops),
{
    lemma_seed_is_kept(RngState::fresh(seed), before);
}

/// Skipping `n` rounds leaves the state that `n` single draws leave.
pub proof fn lemma_skip_is_repeated_next(state: RngState, n: u32)
    ensures
        state.after(RngOp::Skip { iterations: n }) == state.after_all(
            Seq::new(n as nat, |i: int| RngOp::Next),
        ),
    decreases n,
{
    let draws = Seq::new(n as nat, |i: int| RngOp::Next);
    if n > 0 {
        let rest = Seq::new((n - 1) as nat, |i: int| RngOp::Next);
        assert(draws.drop_first() =~= rest);
        lemma_skip_is_repeated_next(state.after(RngOp::Next), (n - 1) as u32);
    }
}

} // verus!
