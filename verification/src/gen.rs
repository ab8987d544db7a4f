//! Seeds: what a generated program and the language it is checked under are a function of.
//!
//! Every generated program is a pure function of its seed, so a disagreement between two
//! engines is replayed by writing the seed down. The seed also picks the settings the
//! program means something under, because a semantic setting is not a variation on a
//! language but a different language, and a bug that only appears under one of them is
//! found only if something generated it.

use vstd::prelude::*;
use crate::conf::{
    defaults, Characters, Division, Logic, MinMax, NoNumber, Overflow, Settings,
};
use crate::text::{decimal, digit_char, push_decimal};

verus! {

/// One step of the scrambler: a xorshift, which never takes a state other than nought to
/// nought.
pub open spec fn scrambled(x: u64) -> u64 {
    let a = x ^ (x << 13u64);
    let b = a ^ (a >> 7u64);
    b ^ (b << 17u64)
}

/// The state `k` steps on from `s`.
pub open spec fn state_after(s: u64, k: nat) -> u64
    decreases k,
{
    if k == 0 {
        s
    } else {
        scrambled(state_after(s, (k - 1) as nat))
    }
}

proof fn lemma_scrambled_is_never_zero(x: u64)
    requires
        x != 0,
    ensures
        scrambled(x) != 0,
{
    let a = x ^ (x << 13u64);
    assert(a != 0) by (bit_vector)
        requires
            x != 0,
            a == x ^ (x << 13u64),
    ;
    let b = a ^ (a >> 7u64);
    assert(b != 0) by (bit_vector)
        requires
            a != 0,
            b == a ^ (a >> 7u64),
    ;
    let c = b ^ (b << 17u64);
    assert(c != 0) by (bit_vector)
        requires
            b != 0,
            c == b ^ (b << 17u64),
    ;
}

/// A deterministic scrambler. Every program is a pure function of its seed.
pub struct Seeded(u64);

impl Seeded {
    /// Nought is a fixed point of the scrambler, so it is never the state.
    #[verifier::type_invariant]
    spec fn never_nought(self) -> bool {
        self.0 != 0
    }

    /// Where the scrambler is.
    pub closed spec fn state(self) -> u64 {
        self.0
    }

    /// A scrambler started from a seed. Nought is a fixed point, so the lowest bit is
    /// always set and the state never is nought.
    pub fn from(seed: u64) -> (s: Seeded)
        ensures
            s.state() == seed | 1,
            s.state() != 0,
    {
        let state = seed | 1;
        assert(state != 0) by (bit_vector)
            requires
                state == seed | 1,
        ;
        Seeded(state)
    }

    /// The next number, which is the new state.
    pub fn next(&mut self) -> (r: u64)
        ensures
            r == scrambled(old(self).state()),
            final(self).state() == r,
            r != 0,
    {
        proof {
            use_type_invariant(&*self);
            lemma_scrambled_is_never_zero(self.0);
        }
        let x = self.0;
        let a = x ^ (x << 13);
        let b = a ^ (a >> 7);
        let c = b ^ (b << 17);
        self.0 = c;
        c
    }

    /// A number below `n`.
    pub fn upto(&mut self, n: u64) -> (r: usize)
        requires
            n > 0,
        ensures
            r == (scrambled(old(self).state()) % n) as usize,
            final(self).state() == scrambled(old(self).state()),
    {
        (self.next() % n) as usize
    }

    /// One of `from`, chosen by the next number.
    pub fn pick<T: Copy>(&mut self, from: &[T]) -> (r: T)
        requires
            from@.len() > 0,
        ensures
            final(self).state() == scrambled(old(self).state()),
            r == from@[(scrambled(old(self).state()) % (from@.len() as u64)) as usize as int],
    {
        let at = self.upto(from.len() as u64);
        proof {
            let n = from@.len() as u64;
            let x = scrambled(old(self).state());
            assert(x % n < n);
            assert((x % n) as usize as int == (x % n) as int);
        }
        from[at]
    }
}

/// The name a program gets, given its seed: `p` and the seed. The oracle calls it by this.
pub fn name_of(seed: u64) -> (name: String)
    ensures
        name@ == seq!['p'] + decimal(seed as nat),
{
    let mut name = String::from_str("p");
    proof {
        reveal_strlit("p");
    }
    push_decimal(&mut name, seed);
    name
}

/// Two digits that are written the same are the same digit.
proof fn lemma_digit_char_one_to_one(a: nat, b: nat)
    requires
        a < 10,
        b < 10,
        digit_char(a) == digit_char(b),
    ensures
        a == b,
{
}

/// Decimal is never empty.
proof fn lemma_decimal_nonempty(n: nat)
    ensures
        decimal(n).len() >= 1,
    decreases n,
{
    if n >= 10 {
        lemma_decimal_nonempty(n / 10);
    }
}

/// Two numbers written the same in decimal are the same number.
proof fn lemma_decimal_one_to_one(a: nat, b: nat)
    requires
        decimal(a) == decimal(b),
    ensures
        a == b,
    decreases a,
{
    if a < 10 && b < 10 {
        assert(decimal(a)[0] == digit_char(a));
        assert(decimal(b)[0] == digit_char(b));
        lemma_digit_char_one_to_one(a, b);
    } else if a < 10 {
        lemma_decimal_nonempty(b / 10);
        assert(decimal(b).len() >= 2);
    } else if b < 10 {
        lemma_decimal_nonempty(a / 10);
        assert(decimal(a).len() >= 2);
    } else {
        assert(decimal(a).drop_last() =~= decimal(a / 10));
        assert(decimal(b).drop_last() =~= decimal(b / 10));
        lemma_decimal_one_to_one(a / 10, b / 10);
        assert(decimal(a).last() == digit_char(a % 10));
        assert(decimal(b).last() == digit_char(b % 10));
        lemma_digit_char_one_to_one(a % 10, b % 10);
    }
}

/// Two seeds name their programs alike only when they are the same seed.
pub proof fn law_a_program_is_named_by_its_seed_alone(a: u64, b: u64)
    ensures
        (seq!['p'] + decimal(a as nat) == seq!['p'] + decimal(b as nat)) <==> a == b,
{
    if seq!['p'] + decimal(a as nat) == seq!['p'] + decimal(b as nat) {
        assert((seq!['p'] + decimal(a as nat)).drop_first() =~= decimal(a as nat));
        assert((seq!['p'] + decimal(b as nat)).drop_first() =~= decimal(b as nat));
        lemma_decimal_one_to_one(a as nat, b as nat);
    }
}

/// What a seed is scrambled by before it starts picking settings, so that the settings
/// and the program the same seed writes do not follow from one another.
pub const SETTINGS_SCRAMBLE: u64 = 0x9E37_79B9_7F4A_7C15;

/// Where picking the settings for a seed starts.
pub open spec fn settings_start(seed: u64) -> u64 {
    vstd::wrapping::u64_specs::wrapping_mul(seed, SETTINGS_SCRAMBLE) | 1
}

/// Whether the `k`-th pick for a seed's settings comes out even, choosing the first value.
pub open spec fn first_choice(seed: u64, k: nat) -> bool {
    state_after(settings_start(seed), k) % 2 == 0
}

/// The settings a seed is checked under: the six semantic settings, each picked in turn,
/// and everything else at its default.
pub open spec fn settings_of(seed: u64) -> Settings {
    Settings {
        division: if first_choice(seed, 1) {
            Division::Truncated
        } else {
            Division::Floored
        },
        logic: if first_choice(seed, 2) {
            Logic::StopsEarly
        } else {
            Logic::AsksBoth
        },
        no_number: if first_choice(seed, 3) {
            NoNumber::CarriesOn
        } else {
            NoNumber::Stops
        },
        characters: if first_choice(seed, 4) {
            Characters::Clusters
        } else {
            Characters::Letters
        },
        min_max: if first_choice(seed, 5) {
            MinMax::Skips
        } else {
            MinMax::Spreads
        },
        overflow: if first_choice(seed, 6) {
            Overflow::Wrap
        } else {
            Overflow::Trap
        },
        ..defaults()
    }
}

/// Which configuration a seed is checked under.
///
/// A seed picks a program and the settings it means something under: only the settings
/// that change what a program answers are picked, and the rest stay at their defaults.
pub fn settings_for(seed: u64) -> (s: Settings)
    ensures
        s == settings_of(seed),
{
    let mut rng = Seeded::from(seed.wrapping_mul(SETTINGS_SCRAMBLE));
    let ghost start = rng.state();
    assert(start == settings_start(seed));
    proof {
        reveal_with_fuel(state_after, 7);
    }
    let division = if rng.upto(2) == 0 {
        Division::Truncated
    } else {
        Division::Floored
    };
    assert(rng.state() == state_after(start, 1));
    let logic = if rng.upto(2) == 0 {
        Logic::StopsEarly
    } else {
        Logic::AsksBoth
    };
    assert(rng.state() == state_after(start, 2));
    let no_number = if rng.upto(2) == 0 {
        NoNumber::CarriesOn
    } else {
        NoNumber::Stops
    };
    assert(rng.state() == state_after(start, 3));
    let characters = if rng.upto(2) == 0 {
        Characters::Clusters
    } else {
        Characters::Letters
    };
    assert(rng.state() == state_after(start, 4));
    let min_max = if rng.upto(2) == 0 {
        MinMax::Skips
    } else {
        MinMax::Spreads
    };
    assert(rng.state() == state_after(start, 5));
    let overflow = if rng.upto(2) == 0 {
        Overflow::Wrap
    } else {
        Overflow::Trap
    };
    assert(rng.state() == state_after(start, 6));
    let rest = Settings::default();
    Settings {
        division,
        logic,
        no_number,
        characters,
        min_max,
        overflow,
        optimise: rest.optimise,
        engine: rest.engine,
    }
}

} // verus!
