//! The pseudorandom stream of commands that the store is exercised with.

use vstd::arithmetic::div_mod::{
    lemma_add_mod_noop, lemma_mod_multiples_vanish, lemma_mod_twice, lemma_mul_mod_noop_left,
    lemma_small_mod, lemma_sub_mod_noop,
};
use vstd::prelude::*;

verus! {

/// The multiplier of the generator.
pub const MULTIPLIER: u64 = 6_364_136_223_846_793_005;

/// The state that follows `state`: a step of a linear congruential generator modulo 2^64.
pub open spec fn next_state(state: u64) -> u64 {
    ((state * MULTIPLIER + 1) % 0x1_0000_0000_0000_0000) as u64
}

/// A linear congruential generator whose outputs are its states.
#[derive(Debug)]
pub struct Rng {
    state: u64,
}

impl View for Rng {
    type V = u64;

    closed spec fn view(&self) -> u64 {
        self.state
    }
}

impl Rng {
    /// A generator in the state `seed`.
    pub fn new(seed: u64) -> (rng: Self)
        ensures
            rng@ == seed,
    {
        Self { state: seed }
    }

    /// Moves to the next state and returns it.
    pub fn next(&mut self) -> (output: u64)
        ensures
            output == next_state(old(self)@),
            output == (old(self)@ * 6_364_136_223_846_793_005 + 1) % 0x1_0000_0000_0000_0000,
            final(self)@ == output,
    {
        self.state = self.state.wrapping_mul(MULTIPLIER).wrapping_add(1);
        self.state
    }
}

/// A command to the store.
#[derive(Clone, Copy, Debug, PartialEq, Eq)]
pub enum Command {
    Put { key: u32, value: u64 },
    Get { key: u32 },
    Delete { key: u32 },
}

impl Command {
    /// The key that the command is about.
    pub open spec fn key(self) -> u32 {
        match self {
            Command::Put { key, .. } => key,
            Command::Get { key } => key,
            Command::Delete { key } => key,
        }
    }
}

/// The command that a stream over the keys below `key_space` gives next when its generator is in
/// `state`: the first output picks the key, the second the kind, half of them puts and three in ten
/// deletes, and a put takes the third output as its value.
pub open spec fn command_at(state: u64, key_space: u32) -> Command {
    let key = (next_state(state) % key_space as u64) as u32;
    let kind = next_state(next_state(state)) % 10;
    if kind <= 4 {
        Command::Put { key, value: next_state(next_state(next_state(state))) }
    } else if kind <= 7 {
        Command::Delete { key }
    } else {
        Command::Get { key }
    }
}

/// The state of the generator after it gave `command`.
pub open spec fn state_after(state: u64, command: Command) -> u64 {
    match command {
        Command::Put { value, .. } => value,
        _ => next_state(next_state(state)),
    }
}

/// An endless stream of commands on the keys below a bound.
#[derive(Debug)]
pub struct CommandStream {
    rng: Rng,
    key_space: u32,
}

impl CommandStream {
    /// The state of the generator behind the stream.
    pub closed spec fn state(self) -> u64 {
        self.rng@
    }

    /// The bound on the keys.
    pub closed spec fn key_space(self) -> u32 {
        self.key_space
    }

    /// A stream that starts at `seed`, over the keys below `key_space`.
    pub fn new(seed: u64, key_space: u32) -> (stream: Self)
        requires
            key_space > 0,
        ensures
            stream.state() == seed,
            stream.key_space() == key_space,
    {
        Self { rng: Rng::new(seed), key_space }
    }

    /// The next command; there always is one.
    pub fn next(&mut self) -> (command: Option<Command>)
        requires
            old(self).key_space() > 0,
        ensures
            command == Some(command_at(old(self).state(), old(self).key_space())),
            command->0.key() < old(self).key_space(),
            ({
                let first = next_state(old(self).state());
                let second = next_state(first);
                let third = next_state(second);
                match command {
                    Some(Command::Put { key, value }) => {
                        &&& key == first % (old(self).key_space() as u64)
                        &&& second % 10 <= 4
                        &&& value == third
                        &&& final(self).state() == third
                    },
                    Some(Command::Delete { key }) => {
                        &&& key == first % (old(self).key_space() as u64)
                        &&& 5 <= second % 10 <= 7
                        &&& final(self).state() == second
                    },
                    Some(Command::Get { key }) => {
                        &&& key == first % (old(self).key_space() as u64)
                        &&& 8 <= second % 10
                        &&& final(self).state() == second
                    },
                    None => false,
                }
            }),
            final(self).state() == state_after(old(self).state(), command->0),
            final(self).key_space() == old(self).key_space(),
    {
        let key_space: u64 = self.key_space as u64;
        let key: u32 = (self.rng.next() % key_space) as u32;
        let kind: u64 = self.rng.next() % 10;
        let command = if kind <= 4 {
            Command::Put { key, value: self.rng.next() }
        } else if kind <= 7 {
            Command::Delete { key }
        } else {
            Command::Get { key }
        };
        Some(command)
    }
}

/// The generator goes from `state` to `state * 6364136223846793005 + 1`, modulo 2^64.
pub proof fn law_next_state(state: u64)
    ensures
        next_state(state) == (state * 6_364_136_223_846_793_005 + 1) % 0x1_0000_0000_0000_0000,
{
}

/// The state that the generator reaches `state` from: the multiplier is odd, so it has an inverse
/// modulo 2^64.
pub open spec fn previous_state(state: u64) -> u64 {
    ((state - 1) * 13_877_824_140_714_322_085 % 0x1_0000_0000_0000_0000) as u64
}

/// Every state is reached from some state, and from one only.
pub proof fn law_states_form_cycles(state: u64)
    ensures
        next_state(previous_state(state)) == state,
        previous_state(next_state(state)) == state,
{
    let m: int = 0x1_0000_0000_0000_0000;
    let a: int = 6_364_136_223_846_793_005;
    let b: int = 13_877_824_140_714_322_085;
    let k: int = 4_787_856_489_426_250_814;
    assert(a * b == m * k + 1) by (nonlinear_arith)
        requires
            m == 0x1_0000_0000_0000_0000,
            a == 6_364_136_223_846_793_005,
            b == 13_877_824_140_714_322_085,
            k == 4_787_856_489_426_250_814,
    ;
    let before = previous_state(state) as int;
    let x = state - 1;
    lemma_mul_mod_noop_left(x * b, a, m);
    assert(x * b * a == m * (k * x) + x) by (nonlinear_arith)
        requires
            a * b == m * k + 1,
    ;
    lemma_mod_multiples_vanish(k * x, x, m);
    assert((before * a) % m == x % m);
    lemma_add_mod_noop(before * a, 1, m);
    lemma_add_mod_noop(x, 1, m);
    lemma_small_mod(state as nat, m as nat);
    assert((before * a + 1) % m == state);

    let y = state * a + 1;
    lemma_sub_mod_noop(y, 1, m);
    lemma_sub_mod_noop(y % m, 1, m);
    lemma_mod_twice(y, m);
    assert((y % m - 1) % m == (state * a) % m);
    lemma_mul_mod_noop_left(y % m - 1, b, m);
    lemma_mul_mod_noop_left(state * a, b, m);
    assert(state * a * b == m * (k * state) + state) by (nonlinear_arith)
        requires
            a * b == m * k + 1,
    ;
    lemma_mod_multiples_vanish(k * state, state as int, m);
}

/// The command at a state is about the key that the first output leaves modulo the key space, for
/// every key space, and its kind and value come of the second output and the third.
pub proof fn law_command_at(state: u64, key_space: u32)
    requires
        key_space > 0,
    ensures
        ({
            let first = next_state(state);
            let second = next_state(first);
            match command_at(state, key_space) {
                Command::Put { key, value } => {
                    &&& key == first % (key_space as u64)
                    &&& second % 10 <= 4
                    &&& value == next_state(second)
                },
                Command::Delete { key } => key == first % (key_space as u64) && 5 <= second % 10
                    <= 7,
                Command::Get { key } => key == first % (key_space as u64) && 8 <= second % 10,
            }
        }),
{
}

/// Every key below the key space is given: at the state before the one that equals the key.
pub proof fn law_every_key_is_given(key: u32, key_space: u32)
    requires
        key < key_space,
    ensures
        match command_at(previous_state(key as u64), key_space) {
            Command::Put { key: given, .. } => given == key,
            Command::Delete { key: given } => given == key,
            Command::Get { key: given } => given == key,
        },
{
    law_states_form_cycles(key as u64);
    lemma_small_mod(key as nat, key_space as nat);
}

} // verus!
