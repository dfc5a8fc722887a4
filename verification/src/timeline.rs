//! The data contract between the world that simulates and the world that
//! plays: the timeline of poses and events, the stable identity of bodies
//! and the dice, the only source of chance in a living world.

use vstd::prelude::*;
use crate::key_order::row_keys;

verus! {

/// 2^64, the modulus of every wrapping operation on the dice.
pub open spec fn word_modulus() -> int {
    0x1_0000_0000_0000_0000
}

/// The low 64 bits of a non-negative number.
pub open spec fn wrap64(x: int) -> u64 {
    (x % word_modulus()) as u64
}

/// The increment of the SplitMix64 state.
pub const SPLITMIX_GAMMA: u64 = 0x9e3779b97f4a7c15;

pub const SPLITMIX_MUL1: u64 = 0xbf58476d1ce4e5b9;

pub const SPLITMIX_MUL2: u64 = 0x94d049bb133111eb;

/// The state after one draw.
pub open spec fn splitmix_advance(state: u64) -> u64 {
    wrap64(state + SPLITMIX_GAMMA)
}

/// The value drawn from an advanced state.
pub open spec fn splitmix_mix(z: u64) -> u64 {
    let z1 = wrap64((z ^ (z >> 30u64)) * SPLITMIX_MUL1);
    let z2 = wrap64((z1 ^ (z1 >> 27u64)) * SPLITMIX_MUL2);
    z2 ^ (z2 >> 31u64)
}

/// The state after `k` draws from `seed`.
pub open spec fn dice_state_after(seed: u64, k: nat) -> u64
    decreases k,
{
    if k == 0 {
        seed
    } else {
        splitmix_advance(dice_state_after(seed, (k - 1) as nat))
    }
}

/// The value of the `k`-th draw (counting from zero) of dice seeded with `seed`.
pub open spec fn dice_draw(seed: u64, k: nat) -> u64 {
    splitmix_mix(dice_state_after(seed, k + 1))
}

/// The dice of the simulation: SplitMix64, deterministic, small and without
/// dependencies. Only the worlds with physics hold them.
pub struct Dice(u64);

impl View for Dice {
    type V = u64;

    closed spec fn view(&self) -> u64 {
        self.0
    }
}

impl Dice {
    pub fn new(seed: u64) -> (r: Self)
        ensures
            r@ == seed,
    {
        Dice(seed)
    }

    /// SplitMix64: advance the state by the golden gamma, then mix it.
    pub fn next_u64(&mut self) -> (r: u64)
        ensures
            final(self)@ == splitmix_advance(old(self)@),
            r == splitmix_mix(final(self)@),
    {
        self.0 = self.0.wrapping_add(SPLITMIX_GAMMA);
        let mut z = self.0;
        let a = z ^ (z >> 30u64);
        z = a.wrapping_mul(SPLITMIX_MUL1);
        let b = z ^ (z >> 27u64);
        z = b.wrapping_mul(SPLITMIX_MUL2);
        z ^ (z >> 31u64)
    }

    /// Rolls a die of `n` faces: an index in `0..n`.
    pub fn roll(&mut self, n: usize) -> (r: usize)
        requires
            n > 0,
        ensures
            final(self)@ == splitmix_advance(old(self)@),
            r == splitmix_mix(final(self)@) % (n as u64),
            r < n,
    {
        let x = self.next_u64();
        (x % (n as u64)) as usize
    }
}

/// The stream of the dice is an arithmetic progression of states: after `k`
/// draws the state is the seed plus `k` golden gammas, modulo 2^64.
pub proof fn law_dice_state_progression(seed: u64, k: nat)
    ensures
        dice_state_after(seed, k) == wrap64(seed + k * SPLITMIX_GAMMA),
    decreases k,
{
    if k > 0 {
        law_dice_state_progression(seed, (k - 1) as nat);
        let prev = seed + (k - 1) * SPLITMIX_GAMMA;
        vstd::arithmetic::div_mod::lemma_add_mod_noop(
            prev,
            SPLITMIX_GAMMA as int,
            word_modulus(),
        );
        vstd::arithmetic::div_mod::lemma_mod_twice(SPLITMIX_GAMMA as int, word_modulus());
        vstd::arithmetic::div_mod::lemma_mod_bound(prev, word_modulus());
        assert(prev + SPLITMIX_GAMMA == seed + k * SPLITMIX_GAMMA) by (nonlinear_arith)
            requires
                prev == seed + (k - 1) * SPLITMIX_GAMMA,
        ;
    }
}


/// The frames of a timeline run at 60 per second, one per physics step.
pub const TIMELINE_FPS: u32 = 60;

/// The score: the pose of every body in every frame, and the game's opaque
/// events, each tied to the frame in which it happened. `P` is the pose.
pub struct Timeline<P> {
    pub fps: u32,
    /// `frames[f]` holds `(key, pose)` of every body in frame `f`, by key.
    pub frames: Vec<Vec<(u64, P)>>,
    /// `(frame, payload)` in the order the game sent them.
    pub events: Vec<(u32, String)>,
}

/// A timeline as mathematical sequences.
pub struct TimelineView<P> {
    pub fps: u32,
    pub frames: Seq<Seq<(u64, P)>>,
    pub events: Seq<(u32, Seq<char>)>,
}

pub open spec fn frames_view<P>(frames: Seq<Vec<(u64, P)>>) -> Seq<Seq<(u64, P)>> {
    frames.map_values(|f: Vec<(u64, P)>| f@)
}

pub open spec fn events_view(events: Seq<(u32, String)>) -> Seq<(u32, Seq<char>)> {
    events.map_values(|e: (u32, String)| (e.0, e.1@))
}

impl<P> View for Timeline<P> {
    type V = TimelineView<P>;

    open spec fn view(&self) -> TimelineView<P> {
        TimelineView { fps: self.fps, frames: frames_view(self.frames@), events: events_view(self.events@) }
    }
}

pub open spec fn strictly_ascending(keys: Seq<u64>) -> bool {
    forall|i: int, j: int| 0 <= i < j < keys.len() ==> keys[i] < keys[j]
}

impl<P> TimelineView<P> {
    /// What every timeline written by the engine satisfies: each frame lists
    /// its bodies by strictly ascending key, and the events come in frame
    /// order, each tied to a frame that exists.
    pub open spec fn is_well_formed(self) -> bool {
        &&& forall|f: int| 0 <= f < self.frames.len() ==> strictly_ascending(row_keys(#[trigger] self.frames[f]))
        &&& forall|e: int| 0 <= e < self.events.len() ==> (#[trigger] self.events[e]).0 < self.frames.len()
        &&& forall|a: int, b: int| 0 <= a < b < self.events.len() ==> (#[trigger] self.events[a]).0 <= (#[trigger] self.events[b]).0
    }

    /// The length of the timeline in whole seconds, as shown to the user.
    pub open spec fn duration_secs(self) -> u32 {
        ((self.frames.len() as u32) / (if self.fps == 0 { 1 } else { self.fps })) as u32
    }

    /// The number of bodies, as counted in the first frame.
    pub open spec fn body_count(self) -> nat {
        if self.frames.len() == 0 { 0 } else { self.frames[0].len() }
    }
}

impl<P> Timeline<P> {
    pub fn frame_count(&self) -> (r: usize)
        ensures
            r == self@.frames.len(),
    {
        self.frames.len()
    }

    /// Whole seconds of the timeline: frames over frames per second (a zero
    /// rate counts as one).
    pub fn duration_secs(&self) -> (r: u32)
        ensures
            r == self@.duration_secs(),
    {
        let fps = if self.fps == 0 { 1 } else { self.fps };
        (self.frames.len() as u32) / fps
    }

    /// Bodies in the first frame, or zero for an empty timeline.
    pub fn body_count(&self) -> (r: usize)
        ensures
            r == self@.body_count(),
    {
        if self.frames.len() == 0 {
            0
        } else {
            self.frames[0].len()
        }
    }
}

/// The stable identity of a body in the timeline, given by the game.
#[derive(Clone, Copy, Debug, PartialEq, Eq, Structural)]
pub struct TimelineKey(pub u64);

/// The key under which a body is written and played: its timeline key, or
/// else its entity index (sound only in worlds without despawns, where
/// indices are not reused).
pub fn body_key(key: Option<TimelineKey>, entity_index: u32) -> (r: u64)
    ensures
        r == match key {
            Some(k) => k.0,
            None => entity_index as u64,
        },
{
    match key {
        Some(k) => k.0,
        None => entity_index as u64,
    }
}

} // verus!
