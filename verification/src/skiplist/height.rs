use vstd::prelude::*;

verus! {

/// The tallest tower a node can have.
pub const MAX_HEIGHT: usize = 24;

/// The state a generator starts from when it is given no seed of its own.
pub const DEFAULT_SEED: u32 = 0x9E37_79B9;

/// The next state of the generator: one round of a 32-bit xorshift.
pub open spec fn step(state: u32) -> u32 {
    let a = state ^ (state << 13);
    let b = a ^ (a >> 17);
    b ^ (b << 5)
}

/// Whether the flip drawn in `state` comes up heads, which it does one time in four.
pub open spec fn heads(state: u32) -> bool {
    state & 3 == 0
}

/// The height reached from `height` by flipping until tails or the cap, and
/// the state of the generator after the last flip.
pub open spec fn climb(state: u32, height: nat) -> (nat, u32)
    decreases MAX_HEIGHT - height,
{
    if height < MAX_HEIGHT && heads(step(state)) {
        climb(step(state), height + 1)
    } else {
        (height, step(state))
    }
}

/// A source of tower heights: each height is one more than a run of heads,
/// capped at `MAX_HEIGHT`. The flips depend on the generator alone,
/// never on a key.
pub struct HeightGenerator {
    state: u32,
}

impl HeightGenerator {
    /// The state the next flip is drawn from.
    pub closed spec fn state(&self) -> u32 {
        self.state
    }

    /// A generator started from `seed`. A xorshift never leaves the state 0,
    /// so a seed of 0 stands for `DEFAULT_SEED`.
    pub fn new(seed: u32) -> (generator: HeightGenerator)
        ensures
            generator.state() == if seed == 0 {
                DEFAULT_SEED
            } else {
                seed
            },
    {
        HeightGenerator { state: if seed == 0 { DEFAULT_SEED } else { seed } }
    }

    /// Draws the height of the next tower.
    pub fn next_height(&mut self) -> (height: usize)
        ensures
            1 <= height <= MAX_HEIGHT,
            (height as nat, final(self).state()) == climb(old(self).state(), 1),
    {
        let mut height: usize = 1;
        loop
            invariant_except_break
                1 <= height <= MAX_HEIGHT,
                climb(old(self).state(), 1) == climb(self.state, height as nat),
            ensures
                1 <= height <= MAX_HEIGHT,
                (height as nat, self.state) == climb(old(self).state(), 1),
            decreases MAX_HEIGHT - height,
        {
            let a = self.state ^ (self.state << 13);
            let b = a ^ (a >> 17);
            self.state = b ^ (b << 5);
            if height < MAX_HEIGHT && self.state & 3 == 0 {
                height += 1;
            } else {
                break;
            }
        }
        height
    }
}

} // verus!
