//! The GPIO register block: its layout, the field arithmetic on its words,
//! and bounds-checked access to a mapped window over it.

use vstd::prelude::*;

verus! {

/// Physical address of the GPIO register block.
pub const GPIO_BASE: u64 = 0x3F200000;

/// Size of the GPIO register block, in bytes.
pub const GPIO_BLOCK_SIZE: usize = 4096;

/// Number of 32-bit words in the GPIO register block.
pub const GPIO_BLOCK_WORDS: usize = 1024;

/// Byte offset of the pull-up/down control register.
pub const GPPUD_OFFSET: usize = 0x94;

/// Byte offset of the pull-up/down clock register for pins 0 to 31.
pub const GPPUDCLK0_OFFSET: usize = 0x98;

/// Byte offset of the output set register for pins 0 to 31.
pub const GPSET0_OFFSET: usize = 28;

/// Byte offset of the output clear register for pins 0 to 31.
pub const GPCLR0_OFFSET: usize = 40;

/// Byte offset of the pin level register for pins 0 to 31.
pub const GPLEV0_OFFSET: usize = 52;

/// Value of the pull control register that selects the pull-down control.
pub const PULL_DOWN: u32 = 0b01;

/// Number of fenced cycles in one settle wait; the datasheet asks for at
/// least this many between the steps of a pull control change.
pub const SETTLE_CYCLES: usize = 150;

/// Number of addressable pins.
pub const PIN_COUNT: u32 = 28;

/// The operating mode of a pin, as its function-select field encodes it.
#[derive(PartialEq, Eq, Structural, Clone, Copy, Debug)]
pub enum PinMode {
    Input,
    Output,
    Alternate,
}

/// One access to the register window, in the order performed.
pub enum Access {
    Read { offset: usize },
    Write { offset: usize, value: u32 },
    Settle,
}

/// Byte offset of the function-select register that holds `pin`'s field.
pub open spec fn fsel_offset_of(pin: u32) -> usize {
    ((pin / 10) * 4) as usize
}

/// Bit position of `pin`'s 3-bit field within its function-select register.
pub open spec fn fsel_shift_of(pin: u32) -> u32 {
    ((pin % 10) * 3) as u32
}

/// The 3-bit function-select field of `pin` in `word`.
pub open spec fn mode_bits(word: u32, pin: u32) -> u32 {
    (word >> fsel_shift_of(pin)) & 7u32
}

/// The mode that a function-select field encodes.
pub open spec fn decode_mode(bits: u32) -> PinMode {
    if bits == 0 {
        PinMode::Input
    } else if bits == 1 {
        PinMode::Output
    } else {
        PinMode::Alternate
    }
}

/// `word` with `pin`'s field cleared and, for an output, set to `001`.
pub open spec fn with_mode(word: u32, pin: u32, is_output: bool) -> u32 {
    let cleared = word & !(7u32 << fsel_shift_of(pin));
    if is_output {
        cleared | (1u32 << fsel_shift_of(pin))
    } else {
        cleared
    }
}

/// The level of `pin` in a level register value: 1 for high, 0 for low.
pub open spec fn level_of(level: u32, pin: u32) -> u32 {
    if level & (1u32 << pin) != 0 {
        1
    } else {
        0
    }
}

/// The single bit that stands for `pin` in the set, clear and clock registers.
pub open spec fn pin_bit(pin: u32) -> u32 {
    1u32 << pin
}

/// Whether `offset` names a whole word inside the block.
pub open spec fn valid_offset(offset: usize) -> bool {
    offset % 4 == 0 && offset < GPIO_BLOCK_SIZE
}

/// Byte offset of the function-select register that holds `pin`'s field.
pub fn fsel_offset(pin: u32) -> (r: usize)
    requires
        pin < PIN_COUNT,
    ensures
        r == fsel_offset_of(pin),
        valid_offset(r),
        r / 4 == pin / 10,
{
    ((pin / 10) * 4) as usize
}

/// The mode that `pin`'s function-select field in `word` encodes.
pub fn mode_of(word: u32, pin: u32) -> (r: PinMode)
    requires
        pin < PIN_COUNT,
    ensures
        r == decode_mode(mode_bits(word, pin)),
{
    let shift: u32 = (pin % 10) * 3;
    let bits = (word >> shift) & 0b111;
    if bits == 0b000 {
        PinMode::Input
    } else if bits == 0b001 {
        PinMode::Output
    } else {
        PinMode::Alternate
    }
}

/// `word` with `pin`'s function-select field set to input or output.
pub fn set_mode_bits(word: u32, pin: u32, is_output: bool) -> (r: u32)
    requires
        pin < PIN_COUNT,
    ensures
        r == with_mode(word, pin, is_output),
{
    let shift: u32 = (pin % 10) * 3;
    let cleared = word & !(0b111u32 << shift);
    if is_output {
        cleared | (0b001u32 << shift)
    } else {
        cleared
    }
}

/// The level of `pin` in the level register value `level`: 1 high, 0 low.
pub fn level_bit(level: u32, pin: u32) -> (r: u32)
    requires
        pin < PIN_COUNT,
    ensures
        r == level_of(level, pin),
        r <= 1,
{
    if level & (1u32 << pin) != 0 {
        1
    } else {
        0
    }
}

/// Relies on core::sync::atomic::compiler_fence: it keeps the compiler from
/// moving memory accesses across it, and returns nothing. It panics when
/// given `Ordering::Relaxed`, which is therefore left out.
pub assume_specification[ core::sync::atomic::compiler_fence ](
    order: core::sync::atomic::Ordering,
)
    requires
        order != core::sync::atomic::Ordering::Relaxed,
;

/// A mapped window over the GPIO register block, with the accesses made
/// through it recorded in order.
pub struct RegisterBlock {
    words: Vec<u32>,
    log: Ghost<Seq<Access>>,
}

impl RegisterBlock {
    /// The words of the window.
    pub closed spec fn words(&self) -> Seq<u32> {
        self.words@
    }

    /// The accesses made through the window since it was mapped.
    pub closed spec fn accesses(&self) -> Seq<Access> {
        self.log@
    }

    /// The window covers the whole block.
    pub closed spec fn wf(&self) -> bool {
        self.words@.len() == GPIO_BLOCK_WORDS
    }

    /// A well-formed window holds one word for each word of the block.
    pub proof fn lemma_len(&self)
        requires
            self.wf(),
        ensures
            self.words().len() == GPIO_BLOCK_WORDS,
    {
    }

    /// Maps a window over `words`; fails unless it covers the whole block.
    pub fn map(words: Vec<u32>) -> (r: Option<RegisterBlock>)
        ensures
            r is Some <==> words@.len() == GPIO_BLOCK_WORDS,
            r matches Some(b) ==> b.wf() && b.words() == words@ && b.accesses() == Seq::<
                Access,
            >::empty(),
    {
        if words.len() == GPIO_BLOCK_WORDS {
            Some(RegisterBlock { words, log: Ghost(Seq::empty()) })
        } else {
            None
        }
    }

    /// Gives up the window, handing back its words.
    pub fn unmap(self) -> (r: Vec<u32>)
        ensures
            r@ == self.words(),
    {
        self.words
    }

    /// Reads the word at byte offset `offset`.
    pub fn read(&mut self, offset: usize) -> (r: u32)
        requires
            old(self).wf(),
            valid_offset(offset),
        ensures
            final(self).wf(),
            r == old(self).words()[offset as int / 4],
            final(self).words() == old(self).words(),
            final(self).accesses() == old(self).accesses().push(Access::Read { offset }),
    {
        self.log = Ghost(self.log@.push(Access::Read { offset }));
        self.words[offset / 4]
    }

    /// Writes `value` to the word at byte offset `offset`.
    pub fn write(&mut self, offset: usize, value: u32)
        requires
            old(self).wf(),
            valid_offset(offset),
        ensures
            final(self).wf(),
            final(self).words() == old(self).words().update(offset as int / 4, value),
            final(self).accesses() == old(self).accesses().push(
                Access::Write { offset, value },
            ),
    {
        self.log = Ghost(self.log@.push(Access::Write { offset, value }));
        self.words.set(offset / 4, value);
    }

    /// Waits the minimum settle time between steps of a pull control change.
    /// The wait is fenced so that no access moves across it.
    pub fn settle(&mut self)
        ensures
            final(self).words() == old(self).words(),
            final(self).wf() == old(self).wf(),
            final(self).accesses() == old(self).accesses().push(Access::Settle),
    {
        let mut i: usize = 0;
        while i < SETTLE_CYCLES
            decreases SETTLE_CYCLES - i,
        {
            core::sync::atomic::compiler_fence(core::sync::atomic::Ordering::SeqCst);
            i = i + 1;
        }
        self.log = Ghost(self.log@.push(Access::Settle));
    }
}

} // verus!
