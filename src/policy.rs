//! Stream policy: how wide codes are, how large the dictionary may grow, and
//! what happens when it is full; with the size and width rules that encoder
//! and decoder apply in lockstep.
use crate::bits::{lemma_two_pow_monotonic, two_pow};
use vstd::prelude::*;

verus! {

/// How the code width evolves over a stream.
#[derive(Clone, Copy, Debug, PartialEq, Eq, Structural)]
pub enum WidthMode {
    /// The narrowest width that reaches every code of the dictionary.
    Growing,
    /// The maximum width, for the whole stream.
    Fixed,
}

/// What a bounded dictionary does once it is full.
#[derive(Clone, Copy, Debug, PartialEq, Eq, Structural)]
pub enum OnFull {
    /// Stop adding entries.
    Freeze,
    /// Go back to the 256 single-byte entries.
    Reset,
}

/// How many entries the dictionary may hold.
#[derive(Clone, Copy, Debug, PartialEq, Eq, Structural)]
pub enum Capacity {
    Unbounded,
    /// At most `2^w` entries, for a maximum code width `w`.
    Bounded(u8),
}

/// The configuration of one stream, carried in its header.
#[derive(Clone, Copy, Debug, PartialEq, Eq, Structural)]
pub struct Policy {
    pub width_mode: WidthMode,
    pub capacity: Capacity,
    pub on_full: OnFull,
}

/// Why a stream could not be written or read.
#[derive(Clone, Copy, Debug, PartialEq, Eq, Structural)]
pub enum LzwError {
    /// A maximum code width outside 8 to 16, or a fixed width without a bound.
    InvalidConfig,
    /// The stream ends inside its header or inside a code.
    UnexpectedEnd,
    /// A code that names no entry of the dictionary.
    InvalidCode,
}

/// The number of single-byte entries that every dictionary starts with.
pub const INITIAL_SIZE: u64 = 256;

/// The smallest maximum code width.
pub const MIN_WIDTH: u8 = 8;

/// The largest maximum code width.
pub const MAX_WIDTH: u8 = 16;

/// The number of binary digits of `x` (none for zero).
pub open spec fn bit_len(x: nat) -> nat
    decreases x,
{
    if x == 0 {
        0
    } else {
        1 + bit_len(x / 2)
    }
}

/// The smallest width, at least 8, in which every code below `size` fits:
/// the smallest `w >= 8` with `size <= 2^w`.
pub open spec fn growing_width(size: nat) -> nat {
    let b = bit_len((size - 1) as nat);
    if b <= 8 {
        8
    } else {
        b
    }
}

impl Policy {
    pub open spec fn is_bounded(self) -> bool {
        self.capacity is Bounded
    }

    /// The maximum code width of a bounded policy.
    pub open spec fn max_width(self) -> nat {
        match self.capacity {
            Capacity::Bounded(w) => w as nat,
            Capacity::Unbounded => 0,
        }
    }

    /// A maximum width from 8 to 16, and a fixed width only with a bound.
    pub open spec fn valid(self) -> bool {
        match self.capacity {
            Capacity::Unbounded => self.width_mode == WidthMode::Growing,
            Capacity::Bounded(w) => MIN_WIDTH <= w <= MAX_WIDTH,
        }
    }

    /// The most entries a bounded dictionary holds.
    pub open spec fn limit(self) -> nat {
        two_pow(self.max_width())
    }

    pub open spec fn resets(self) -> bool {
        self.is_bounded() && self.on_full == OnFull::Reset
    }

    /// Whether a dictionary of `size` entries takes one more.
    pub open spec fn has_room(self, size: nat) -> bool {
        !self.is_bounded() || size < self.limit()
    }

    /// The size once the check for a reset has been made.
    pub open spec fn size_after_reset(self, size: nat) -> nat {
        if self.resets() && size == self.limit() {
            INITIAL_SIZE as nat
        } else {
            size
        }
    }

    /// The size after one step: the check for a reset, then one insertion.
    pub open spec fn next_size(self, size: nat) -> nat {
        let m = self.size_after_reset(size);
        if self.has_room(m) {
            m + 1
        } else {
            m
        }
    }

    /// The size after `k` steps from the initial dictionary.
    pub open spec fn size_after(self, k: nat) -> nat
        decreases k,
    {
        if k == 0 {
            INITIAL_SIZE as nat
        } else {
            self.next_size(self.size_after((k - 1) as nat))
        }
    }

    /// The width of the codes sent while the dictionary holds `size` entries.
    pub open spec fn width_for(self, size: nat) -> nat {
        match self.width_mode {
            WidthMode::Fixed => self.max_width(),
            WidthMode::Growing => growing_width(size),
        }
    }

    /// Unbounded capacity, growing width.
    pub fn unbounded() -> (p: Policy)
        ensures
            p.valid(),
            p.capacity == Capacity::Unbounded,
            p.width_mode == WidthMode::Growing,
            p.on_full == OnFull::Freeze,
    {
        Policy { width_mode: WidthMode::Growing, capacity: Capacity::Unbounded, on_full: OnFull::Freeze }
    }

    /// A bound of `2^max_width` entries.
    pub fn bounded(max_width: u8, on_full: OnFull, width_mode: WidthMode) -> (p: Policy)
        ensures
            p.capacity == Capacity::Bounded(max_width),
            p.on_full == on_full,
            p.width_mode == width_mode,
    {
        Policy { width_mode, capacity: Capacity::Bounded(max_width), on_full }
    }

    /// Accepts a valid policy, and refuses any other as a configuration error.
    pub fn check(&self) -> (r: Result<(), LzwError>)
        ensures
            r is Ok <==> self.valid(),
            r is Err ==> r == Err::<(), LzwError>(LzwError::InvalidConfig),
    {
        match self.capacity {
            Capacity::Unbounded => {
                if self.width_mode == WidthMode::Growing {
                    Ok(())
                } else {
                    Err(LzwError::InvalidConfig)
                }
            },
            Capacity::Bounded(w) => validate_table_size(w),
        }
    }

    /// Whether the policy resets a full dictionary.
    pub fn resets_when_full(&self) -> (r: bool)
        ensures
            r == self.resets(),
    {
        match self.capacity {
            Capacity::Unbounded => false,
            Capacity::Bounded(_) => self.on_full == OnFull::Reset,
        }
    }

    /// The most entries, `2^w`, of a bounded valid policy; `None` when unbounded.
    pub fn limit_entries(&self) -> (r: Option<u64>)
        requires
            self.valid(),
        ensures
            r is Some <==> self.is_bounded(),
            r is Some ==> r.unwrap() as nat == self.limit(),
            r is Some ==> 256 <= r.unwrap() <= 65536,
    {
        match self.capacity {
            Capacity::Unbounded => None,
            Capacity::Bounded(w) => {
                let mut p: u64 = 1;
                let mut i: u8 = 0;
                while i < w
                    invariant
                        i <= w <= 16,
                        p as nat == two_pow(i as nat),
                        p <= 65536,
                    decreases w - i,
                {
                    proof {
                        lemma_two_pow_monotonic((i + 1) as nat, 16);
                        lemma_two_pow_values();
                    }
                    p = p * 2;
                    i = i + 1;
                }
                proof {
                    lemma_two_pow_values();
                    lemma_two_pow_monotonic(8, w as nat);
                    lemma_two_pow_monotonic(w as nat, 16);
                }
                Some(p)
            },
        }
    }

    /// The size after one step: the check for a reset, then one insertion.
    pub fn size_after_step(&self, size: u64) -> (n: u64)
        requires
            self.valid(),
            256 <= size < 0x4000_0000_0000_0000,
            self.is_bounded() ==> size <= self.limit(),
        ensures
            n as nat == self.next_size(size as nat),
    {
        let lim = self.limit_entries();
        let m = match lim {
            Some(l) => if self.resets_when_full() && size == l {
                INITIAL_SIZE
            } else {
                size
            },
            None => size,
        };
        match lim {
            Some(l) => if m < l {
                m + 1
            } else {
                m
            },
            None => m + 1,
        }
    }

    /// The width of the codes sent while the dictionary holds `size` entries.
    pub fn code_width(&self, size: u64) -> (w: u32)
        requires
            self.valid(),
            256 <= size <= 0x8000_0000_0000_0000,
        ensures
            w as nat == self.width_for(size as nat),
            8 <= w <= 64,
            size as nat <= two_pow(w as nat) || self.width_mode == WidthMode::Fixed,
    {
        match self.width_mode {
            WidthMode::Fixed => match self.capacity {
                Capacity::Bounded(m) => m as u32,
                Capacity::Unbounded => 8,
            },
            WidthMode::Growing => {
                let mut w: u32 = 8;
                let mut p: u64 = 256;
                proof {
                    lemma_two_pow_values();
                }
                while p < size
                    invariant
                        8 <= w <= 63,
                        p >= 256,
                        p as nat == two_pow(w as nat),
                        w > 8 ==> two_pow((w - 1) as nat) < size,
                        size <= 0x8000_0000_0000_0000,
                    decreases 64 - w,
                {
                    proof {
                        lemma_two_pow_values();
                        if w + 1 > 63 {
                            lemma_two_pow_monotonic(63, (w + 1) as nat);
                        }
                    }
                    p = p * 2;
                    w = w + 1;
                }
                proof {
                    lemma_growing_width_exact(size as nat, w as nat);
                }
                w
            },
        }
    }
}

/// Accepts a maximum code width from 8 to 16, and refuses any other.
pub fn validate_table_size(table_size: u8) -> (r: Result<(), LzwError>)
    ensures
        r is Ok <==> MIN_WIDTH <= table_size <= MAX_WIDTH,
        r is Err ==> r == Err::<(), LzwError>(LzwError::InvalidConfig),
{
    if table_size < MIN_WIDTH || table_size > MAX_WIDTH {
        return Err(LzwError::InvalidConfig);
    }
    Ok(())
}

pub proof fn lemma_two_pow_values()
    ensures
        two_pow(8) == 256,
        two_pow(16) == 65536,
        two_pow(63) == 0x8000_0000_0000_0000,
        two_pow(64) == 0x1_0000_0000_0000_0000,
{
    reveal_with_fuel(two_pow, 65);
}

/// `x` has at most `w` digits exactly when it is below `2^w`.
pub proof fn lemma_bit_len(x: nat, w: nat)
    ensures
        x < two_pow(w) <==> bit_len(x) <= w,
    decreases w,
{
    if w > 0 {
        lemma_bit_len(x / 2, (w - 1) as nat);
    } else if x > 0 {
        assert(bit_len(x) >= 1);
    }
}

/// The width a loop finds by doubling from 256 is the growing width.
proof fn lemma_growing_width_exact(size: nat, w: nat)
    requires
        256 <= size <= two_pow(w),
        w >= 8,
        w > 8 ==> two_pow((w - 1) as nat) < size,
    ensures
        growing_width(size) == w,
{
    lemma_bit_len((size - 1) as nat, w);
    if w > 8 {
        lemma_bit_len((size - 1) as nat, (w - 1) as nat);
    }
}

/// The growing width of `size` reaches `size`: `size <= 2^growing_width(size)`.
pub proof fn lemma_growing_width_fits(size: nat)
    requires
        size >= 1,
    ensures
        size <= two_pow(growing_width(size)),
        growing_width(size) >= 8,
{
    lemma_bit_len((size - 1) as nat, growing_width(size));
}


proof fn lemma_bit_len_monotonic(x: nat, y: nat)
    requires
        x <= y,
    ensures
        bit_len(x) <= bit_len(y),
{
    lemma_bit_len(y, bit_len(y));
    lemma_bit_len(x, bit_len(y));
}

/// Between resets the code width never shrinks; it changes only when the size
/// passes `2^w` for the width `w` before, and then grows by one.
pub proof fn lemma_width_monotonic(p: Policy, size: nat)
    requires
        p.valid(),
        256 <= size,
        p.is_bounded() ==> size <= p.limit(),
        p.size_after_reset(size) == size,
    ensures
        p.width_for(size) <= p.width_for(p.next_size(size)),
        p.width_for(p.next_size(size)) != p.width_for(size) ==> {
            &&& p.next_size(size) > two_pow(p.width_for(size))
            &&& p.width_for(p.next_size(size)) == p.width_for(size) + 1
        },
{
    if p.width_mode == WidthMode::Growing && p.next_size(size) == size + 1 {
        let w = growing_width(size);
        lemma_growing_width_fits(size);
        lemma_bit_len_monotonic((size - 1) as nat, size);
        if size < two_pow(w) {
            lemma_bit_len(size, w);
        } else {
            lemma_bit_len(size, w);
            lemma_bit_len(size, w + 1);
        }
    }
}

/// A bounded dictionary never holds more than `2^w` entries, nor fewer than 256.
pub proof fn lemma_size_within_limit(p: Policy, k: nat)
    requires
        p.valid(),
        p.is_bounded(),
    ensures
        256 <= p.size_after(k) <= p.limit(),
    decreases k,
{
    lemma_two_pow_values();
    lemma_two_pow_monotonic(8, p.max_width());
    if k > 0 {
        lemma_size_within_limit(p, (k - 1) as nat);
    }
}

/// A reset brings the size back to 256, where the growing width is 8.
pub proof fn lemma_reset_size(p: Policy)
    requires
        p.valid(),
        p.resets(),
    ensures
        p.size_after_reset(p.limit()) == 256,
        growing_width(256) == 8,
        p.width_mode == WidthMode::Growing ==> p.width_for(256) == 8,
{
    lemma_two_pow_values();
    lemma_bit_len(255, 8);
}

/// With a maximum width of 8 the dictionary stays at its 256 initial entries:
/// no insertion ever succeeds.
pub proof fn lemma_degenerate_bound(p: Policy, k: nat)
    requires
        p.capacity == Capacity::Bounded(8),
    ensures
        p.size_after(k) == 256,
        !p.has_room(p.size_after(k)),
    decreases k,
{
    lemma_two_pow_values();
    if k > 0 {
        lemma_degenerate_bound(p, (k - 1) as nat);
    }
}

} // verus!
