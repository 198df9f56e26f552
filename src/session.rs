//! One open handle on the GPIO controller: its register window and its
//! classification of every pin as input, output or alternate.

use vstd::prelude::*;

use vstd::seq_lib::lemma_no_dup_in_concat;

use crate::pin_set::{PinSet, lemma_distinct_below, lemma_distinct_covering};
use crate::regs::{
    Access, PinMode, RegisterBlock, decode_mode, fsel_offset, fsel_offset_of, mode_bits, mode_of,
    pin_bit, with_mode, level_of, level_bit, set_mode_bits, GPIO_BLOCK_WORDS, GPPUDCLK0_OFFSET,
    GPPUD_OFFSET, GPSET0_OFFSET, GPCLR0_OFFSET, GPLEV0_OFFSET, PIN_COUNT, PULL_DOWN,
};

verus! {

/// Why an operation on a session failed.
#[derive(PartialEq, Eq, Structural, Clone, Copy, Debug)]
pub enum GpioError {
    /// The pin is not classified for the operation.
    PermissionDenied,
    /// The pin number is outside the addressable range.
    InvalidArgument,
    /// The register block could not be mapped.
    ResourceExhausted,
    /// The command is not one the controller knows.
    Unsupported,
}

/// The mode that the function-select registers in `window` give `pin`.
pub open spec fn mode_at(window: Seq<u32>, pin: u32) -> PinMode {
    decode_mode(mode_bits(window[pin as int / 10], pin))
}

/// The three classes hold exactly the pins below `n`, each in the class that
/// `window` gives it.
pub open spec fn classified_below(
    outputs: Seq<u32>,
    inputs: Seq<u32>,
    alternates: Seq<u32>,
    window: Seq<u32>,
    n: u32,
) -> bool {
    forall|p: u32|
        #![trigger inputs.contains(p)]
        #![trigger outputs.contains(p)]
        #![trigger alternates.contains(p)]
        {
            &&& inputs.contains(p) <==> p < n && mode_at(window, p) == PinMode::Input
            &&& outputs.contains(p) <==> p < n && mode_at(window, p) == PinMode::Output
            &&& alternates.contains(p) <==> p < n && mode_at(window, p) == PinMode::Alternate
        }
}

/// Every addressable pin is in exactly one of the three classes, and no
/// other number is in any.
pub open spec fn partitioned(outputs: Seq<u32>, inputs: Seq<u32>, alternates: Seq<u32>) -> bool {
    &&& forall|p: u32| #[trigger]
        outputs.contains(p) ==> p < PIN_COUNT && !inputs.contains(p) && !alternates.contains(p)
    &&& forall|p: u32| #[trigger] inputs.contains(p) ==> p < PIN_COUNT && !alternates.contains(p)
    &&& forall|p: u32| #[trigger] alternates.contains(p) ==> p < PIN_COUNT
    &&& forall|p: u32|
        #![trigger inputs.contains(p)]
        #![trigger outputs.contains(p)]
        #![trigger alternates.contains(p)]
        p < PIN_COUNT ==> outputs.contains(p) || inputs.contains(p) || alternates.contains(p)
}

/// The accesses that probing `pin` makes: read its function-select register,
/// then take its pull control to pull-down-disabled.
pub open spec fn pin_probe_log(pin: u32) -> Seq<Access> {
    seq![
        Access::Read { offset: fsel_offset_of(pin) },
        Access::Write { offset: GPPUD_OFFSET, value: PULL_DOWN },
        Access::Settle,
        Access::Write { offset: GPPUDCLK0_OFFSET, value: pin_bit(pin) },
        Access::Settle,
        Access::Write { offset: GPPUD_OFFSET, value: 0 },
        Access::Write { offset: GPPUDCLK0_OFFSET, value: 0 },
    ]
}

/// The accesses that probing pins `0..n` in turn makes.
pub open spec fn probe_log(n: nat) -> Seq<Access>
    decreases n,
{
    if n == 0 {
        Seq::empty()
    } else {
        probe_log((n - 1) as nat) + pin_probe_log((n - 1) as u32)
    }
}

/// The words of `window` once the pull control registers are cleared.
pub open spec fn probed_words(window: Seq<u32>) -> Seq<u32> {
    window.update(GPPUD_OFFSET as int / 4, 0).update(GPPUDCLK0_OFFSET as int / 4, 0)
}

/// Byte offset of the register that drives an output high (`value` true) or
/// low.
pub open spec fn output_offset(value: bool) -> usize {
    if value {
        GPSET0_OFFSET
    } else {
        GPCLR0_OFFSET
    }
}

/// `after` holds what `before` held, with `pin` added when `member` holds and
/// taken out otherwise.
pub open spec fn moved(before: Seq<u32>, after: Seq<u32>, pin: u32, member: bool) -> bool {
    forall|q: u32| #[trigger]
        after.contains(q) <==> if q == pin {
            member
        } else {
            before.contains(q)
        }
}

/// What a teardown of `pre` leaves: the window is gone, the classes stay,
/// and a mapping was given up (`unmapped`) exactly when one was held.
pub open spec fn tears_down(pre: Session, post: Session, unmapped: bool) -> bool {
    &&& unmapped == pre.is_open()
    &&& !post.is_open()
    &&& post.outputs() == pre.outputs()
    &&& post.inputs() == pre.inputs()
    &&& post.alternates() == pre.alternates()
}

/// Copies the members of `set` out, in slot order.
fn copy_pins(set: &PinSet) -> (r: Vec<u32>)
    requires
        set.wf(),
    ensures
        r@ == set@,
{
    let pins = set.as_slice();
    let mut out: Vec<u32> = Vec::new();
    let mut i: usize = 0;
    while i < pins.len()
        invariant
            i <= pins@.len(),
            out@ == pins@.subrange(0, i as int),
        decreases pins@.len() - i,
    {
        out.push(pins[i]);
        i = i + 1;
        proof {
            assert(out@ =~= pins@.subrange(0, i as int));
        }
    }
    proof {
        assert(pins@.subrange(0, pins@.len() as int) =~= pins@);
    }
    out
}

/// What `read_level` of `pin` on `pre` leaves (`post`) and returns (`r`).
pub open spec fn read_level_done(
    pre: Session,
    post: Session,
    pin: u32,
    r: Result<u32, GpioError>,
) -> bool {
    if !pre.inputs().contains(pin) {
        r == Err::<u32, GpioError>(GpioError::PermissionDenied) && post == pre
    } else {
        &&& r == Ok::<u32, GpioError>(
            level_of(pre.registers().words()[GPLEV0_OFFSET as int / 4], pin),
        )
        &&& post.outputs() == pre.outputs()
        &&& post.inputs() == pre.inputs()
        &&& post.alternates() == pre.alternates()
        &&& post.registers().words() == pre.registers().words()
        &&& post.registers().accesses() == pre.registers().accesses().push(
            Access::Read { offset: GPLEV0_OFFSET },
        )
    }
}

/// What `set_output` of `pin` to `value` on `pre` leaves (`post`) and
/// returns (`r`).
pub open spec fn set_output_done(
    pre: Session,
    post: Session,
    pin: u32,
    value: bool,
    r: Result<(), GpioError>,
) -> bool {
    if !pre.outputs().contains(pin) {
        r == Err::<(), GpioError>(GpioError::PermissionDenied) && post == pre
    } else {
        &&& r == Ok::<(), GpioError>(())
        &&& post.outputs() == pre.outputs()
        &&& post.inputs() == pre.inputs()
        &&& post.alternates() == pre.alternates()
        &&& post.registers().words() == pre.registers().words().update(
            output_offset(value) as int / 4,
            pin_bit(pin),
        )
        &&& post.registers().accesses() == pre.registers().accesses().push(
            Access::Write { offset: output_offset(value), value: pin_bit(pin) },
        )
    }
}

/// What `set_mode` of `pin` on `pre` leaves (`post`) and returns (`r`).
pub open spec fn set_mode_done(
    pre: Session,
    post: Session,
    pin: u32,
    is_output: bool,
    r: Result<(), GpioError>,
) -> bool {
    if pin >= PIN_COUNT {
        r == Err::<(), GpioError>(GpioError::InvalidArgument) && post == pre
    } else {
        let fsel = fsel_offset_of(pin);
        let word = with_mode(pre.registers().words()[pin as int / 10], pin, is_output);
        &&& r == Ok::<(), GpioError>(())
        &&& moved(pre.outputs(), post.outputs(), pin, is_output)
        &&& moved(pre.inputs(), post.inputs(), pin, !is_output)
        &&& moved(pre.alternates(), post.alternates(), pin, false)
        &&& post.registers().words() == pre.registers().words().update(
            pin as int / 10,
            word,
        )
        &&& post.registers().accesses() == pre.registers().accesses().push(
            Access::Read { offset: fsel },
        ).push(Access::Write { offset: fsel, value: word })
    }
}

/// An open handle on the GPIO controller. Callers that share one serialise
/// their operations on it, which `&mut self` enforces.
pub struct Session {
    output: PinSet,
    input: PinSet,
    alternate: PinSet,
    regs: Option<RegisterBlock>,
}

impl Session {
    /// The pins classified as outputs.
    pub closed spec fn outputs(&self) -> Seq<u32> {
        self.output@
    }

    /// The pins classified as inputs.
    pub closed spec fn inputs(&self) -> Seq<u32> {
        self.input@
    }

    /// The pins left in an alternate function.
    pub closed spec fn alternates(&self) -> Seq<u32> {
        self.alternate@
    }

    /// Whether the register window is still mapped.
    pub closed spec fn is_open(&self) -> bool {
        self.regs is Some
    }

    /// The register window, while it is mapped.
    pub closed spec fn registers(&self) -> RegisterBlock {
        self.regs->Some_0
    }

    /// The classes are well formed and partition the pins, and a mapped
    /// window covers the whole block.
    pub closed spec fn wf(&self) -> bool {
        &&& self.output.wf()
        &&& self.input.wf()
        &&& self.alternate.wf()
        &&& partitioned(self.output@, self.input@, self.alternate@)
        &&& self.regs matches Some(b) ==> b.wf()
    }

    /// Every addressable pin is in exactly one class, in every well-formed
    /// session: after opening and after each operation.
    pub proof fn lemma_partitioned(&self)
        requires
            self.wf(),
        ensures
            partitioned(self.outputs(), self.inputs(), self.alternates()),
            self.outputs().no_duplicates(),
            self.inputs().no_duplicates(),
            self.alternates().no_duplicates(),
    {
        self.output.lemma_members_distinct();
        self.input.lemma_members_distinct();
        self.alternate.lemma_members_distinct();
    }

    /// The three classes of a well-formed session together hold exactly as
    /// many pins as there are addressable pins.
    pub proof fn lemma_class_sizes(&self)
        requires
            self.wf(),
        ensures
            self.outputs().len() + self.inputs().len() + self.alternates().len() == PIN_COUNT,
    {
        self.lemma_partitioned();
        let (o, i, a) = (self.outputs(), self.inputs(), self.alternates());
        assert forall|x: int, y: int| 0 <= x < o.len() && 0 <= y < i.len() implies o[x]
            != i[y] by {
            assert(o.contains(o[x]));
            assert(i.contains(i[y]));
        }
        lemma_no_dup_in_concat(o, i);
        let oi = o + i;
        assert forall|x: int, y: int| 0 <= x < oi.len() && 0 <= y < a.len() implies oi[x]
            != a[y] by {
            assert(a.contains(a[y]));
            if x < o.len() {
                assert(o.contains(oi[x]));
            } else {
                assert(i.contains(i[x - o.len()]));
            }
        }
        lemma_no_dup_in_concat(oi, a);
        let all = oi + a;
        assert forall|p: u32| #[trigger] all.contains(p) implies p < PIN_COUNT by {
            let k = choose|k: int| 0 <= k < all.len() && all[k] == p;
            if k < o.len() {
                assert(o.contains(o[k]));
            } else if k < oi.len() {
                assert(i.contains(i[k - o.len()]));
            } else {
                assert(a.contains(a[k - oi.len()]));
            }
        }
        assert forall|p: u32| p < PIN_COUNT implies #[trigger] all.contains(p) by {
            if o.contains(p) {
                let k = choose|k: int| 0 <= k < o.len() && o[k] == p;
                assert(all[k] == p);
            } else if i.contains(p) {
                let k = choose|k: int| 0 <= k < i.len() && i[k] == p;
                assert(all[o.len() + k] == p);
            } else {
                assert(a.contains(p));
                let k = choose|k: int| 0 <= k < a.len() && a[k] == p;
                assert(all[oi.len() + k] == p);
            }
        }
        lemma_distinct_below(all, PIN_COUNT);
        lemma_distinct_covering(all, PIN_COUNT);
    }

    /// A mapped window of a well-formed session covers the whole block.
    pub proof fn lemma_window_len(&self)
        requires
            self.wf(),
            self.is_open(),
        ensures
            self.registers().words().len() == GPIO_BLOCK_WORDS,
    {
        self.registers().lemma_len();
    }

    /// Opens a session over the register window `window`: maps it, then
    /// probes every pin in turn, classifying it by its function-select field
    /// and taking its pull control to pull-down-disabled. Fails with
    /// `ResourceExhausted`, and probes nothing, when the window does not
    /// cover the whole block.
    pub fn open(window: Vec<u32>) -> (r: Result<Session, GpioError>)
        ensures
            r is Err <==> window@.len() != GPIO_BLOCK_WORDS,
            r matches Err(e) ==> e == GpioError::ResourceExhausted,
            r matches Ok(s) ==> {
                &&& s.wf()
                &&& s.is_open()
                &&& classified_below(s.outputs(), s.inputs(), s.alternates(), window@, PIN_COUNT)
                &&& s.registers().words() == probed_words(window@)
                &&& s.registers().accesses() == probe_log(PIN_COUNT as nat)
            },
    {
        let ghost w = window@;
        let mut regs = match RegisterBlock::map(window) {
            Some(b) => b,
            None => {
                return Err(GpioError::ResourceExhausted);
            },
        };
        let mut output = PinSet::new();
        let mut input = PinSet::new();
        let mut alternate = PinSet::new();
        let mut pin: u32 = 0;
        proof {
            assert(regs.accesses() =~= probe_log(0));
        }
        while pin < PIN_COUNT
            invariant
                regs.wf(),
                output.wf(),
                input.wf(),
                alternate.wf(),
                pin <= PIN_COUNT,
                w.len() == GPIO_BLOCK_WORDS,
                pin == 0 ==> regs.words() == w,
                pin > 0 ==> regs.words() == probed_words(w),
                regs.accesses() == probe_log(pin as nat),
                classified_below(output@, input@, alternate@, w, pin),
            decreases PIN_COUNT - pin,
        {
            let word = regs.read(fsel_offset(pin));
            regs.write(GPPUD_OFFSET, PULL_DOWN);
            regs.settle();
            regs.write(GPPUDCLK0_OFFSET, 1u32 << pin);
            regs.settle();
            regs.write(GPPUD_OFFSET, 0);
            regs.write(GPPUDCLK0_OFFSET, 0);
            proof {
                assert(word == w[pin as int / 10]);
                assert(regs.words() =~= probed_words(w));
                assert(probe_log((pin + 1) as nat) == probe_log(pin as nat) + pin_probe_log(pin));
                assert(regs.accesses() =~= probe_log((pin + 1) as nat));
            }
            let ghost (o0, i0, a0) = (output@, input@, alternate@);
            match mode_of(word, pin) {
                PinMode::Input => {
                    proof {
                        input.lemma_members_distinct();
                        lemma_distinct_below(input@, pin);
                    }
                    input.add(pin);
                },
                PinMode::Output => {
                    proof {
                        output.lemma_members_distinct();
                        lemma_distinct_below(output@, pin);
                    }
                    output.add(pin);
                },
                PinMode::Alternate => {
                    proof {
                        alternate.lemma_members_distinct();
                        lemma_distinct_below(alternate@, pin);
                    }
                    alternate.add(pin);
                },
            }
            proof {
                assert forall|p: u32|
                    #![trigger input@.contains(p)]
                    #![trigger output@.contains(p)]
                    #![trigger alternate@.contains(p)]
                    {
                        &&& input@.contains(p) <==> p < pin + 1 && mode_at(w, p) == PinMode::Input
                        &&& output@.contains(p) <==> p < pin + 1 && mode_at(w, p)
                            == PinMode::Output
                        &&& alternate@.contains(p) <==> p < pin + 1 && mode_at(w, p)
                            == PinMode::Alternate
                    } by {
                    if p == pin {
                        assert(input@.contains(p) <==> mode_at(w, p) == PinMode::Input);
                    } else {
                        assert(input@.contains(p) <==> i0.contains(p));
                        assert(output@.contains(p) <==> o0.contains(p));
                        assert(alternate@.contains(p) <==> a0.contains(p));
                    }
                }
            }
            pin = pin + 1;
        }
        let s = Session { output, input, alternate, regs: Some(regs) };
        proof {
            assert(partitioned(s.output@, s.input@, s.alternate@));
        }
        Ok(s)
    }

    /// Reads the level of input pin `pin`: 1 for high, 0 for low. Fails with
    /// `PermissionDenied`, touching no register, unless `pin` is an input.
    pub fn read_level(&mut self, pin: u32) -> (r: Result<u32, GpioError>)
        requires
            old(self).wf(),
            old(self).is_open(),
        ensures
            final(self).wf(),
            final(self).is_open(),
            read_level_done(*old(self), *final(self), pin, r),
    {
        if !self.input.contains(pin) {
            return Err(GpioError::PermissionDenied);
        }
        let mut regs = match self.regs.take() {
            Some(b) => b,
            None => {
                return Err(GpioError::PermissionDenied);
            },
        };
        let level = regs.read(GPLEV0_OFFSET);
        self.regs = Some(regs);
        Ok(level_bit(level, pin))
    }

    /// Drives output pin `pin` high (`value` true) or low, by writing its bit
    /// to the set or the clear register. Fails with `PermissionDenied`,
    /// touching no register, unless `pin` is an output.
    pub fn set_output(&mut self, pin: u32, value: bool) -> (r: Result<(), GpioError>)
        requires
            old(self).wf(),
            old(self).is_open(),
        ensures
            final(self).wf(),
            final(self).is_open(),
            set_output_done(*old(self), *final(self), pin, value, r),
    {
        if !self.output.contains(pin) {
            return Err(GpioError::PermissionDenied);
        }
        let mut regs = match self.regs.take() {
            Some(b) => b,
            None => {
                return Err(GpioError::PermissionDenied);
            },
        };
        let offset = if value {
            GPSET0_OFFSET
        } else {
            GPCLR0_OFFSET
        };
        regs.write(offset, 1u32 << pin);
        self.regs = Some(regs);
        Ok(())
    }

    /// Sets `pin` to output (`is_output` true) or input: rewrites its
    /// function-select field, then moves it into that class and out of the
    /// other two. Fails with `InvalidArgument`, touching no register, when
    /// `pin` is not an addressable pin.
    pub fn set_mode(&mut self, pin: u32, is_output: bool) -> (r: Result<(), GpioError>)
        requires
            old(self).wf(),
            old(self).is_open(),
        ensures
            final(self).wf(),
            final(self).is_open(),
            set_mode_done(*old(self), *final(self), pin, is_output, r),
    {
        if pin >= PIN_COUNT {
            return Err(GpioError::InvalidArgument);
        }
        let mut regs = match self.regs.take() {
            Some(b) => b,
            None => {
                return Err(GpioError::InvalidArgument);
            },
        };
        let fsel = fsel_offset(pin);
        let word = regs.read(fsel);
        regs.write(fsel, set_mode_bits(word, pin, is_output));
        self.regs = Some(regs);
        proof {
            self.output.lemma_members_distinct();
            self.input.lemma_members_distinct();
            if is_output && !self.output@.contains(pin) {
                let t = self.output@.push(pin);
                assert forall|x: u32| #[trigger] t.contains(x) implies x < PIN_COUNT by {
                    let k = choose|k: int| 0 <= k < t.len() && t[k] == x;
                    if k < self.output@.len() {
                        assert(self.output@.contains(x));
                    }
                }
                lemma_distinct_below(t, PIN_COUNT);
            }
            if !is_output && !self.input@.contains(pin) {
                let t = self.input@.push(pin);
                assert forall|x: u32| #[trigger] t.contains(x) implies x < PIN_COUNT by {
                    let k = choose|k: int| 0 <= k < t.len() && t[k] == x;
                    if k < self.input@.len() {
                        assert(self.input@.contains(x));
                    }
                }
                lemma_distinct_below(t, PIN_COUNT);
            }
        }
        if is_output {
            self.output.add(pin);
            self.input.remove(pin);
            self.alternate.remove(pin);
        } else {
            self.input.add(pin);
            self.output.remove(pin);
            self.alternate.remove(pin);
        }
        Ok(())
    }

    /// The pins classified as outputs, in the order the class holds them.
    pub fn get_output_pins(&self) -> (r: Vec<u32>)
        requires
            self.wf(),
        ensures
            r@ == self.outputs(),
            r@.len() <= PIN_COUNT,
    {
        proof {
            self.output.lemma_members_distinct();
        }
        copy_pins(&self.output)
    }

    /// The pins classified as inputs, in the order the class holds them.
    pub fn get_input_pins(&self) -> (r: Vec<u32>)
        requires
            self.wf(),
        ensures
            r@ == self.inputs(),
            r@.len() <= PIN_COUNT,
    {
        proof {
            self.input.lemma_members_distinct();
        }
        copy_pins(&self.input)
    }

    /// Unmaps the register window if it is still mapped, handing back its
    /// words; a session already torn down is left as it is.
    pub fn release(&mut self) -> (r: Option<Vec<u32>>)
        requires
            old(self).wf(),
        ensures
            final(self).wf(),
            tears_down(*old(self), *final(self), r is Some),
            r matches Some(w) ==> w@ == old(self).registers().words(),
    {
        match self.regs.take() {
            Some(b) => Some(b.unmap()),
            None => None,
        }
    }
}

/// Tearing a session down twice unmaps at most once: the first teardown
/// gives up the mapping exactly when one was held, the second never does.
pub proof fn lemma_teardown_at_most_once(
    s0: Session,
    s1: Session,
    s2: Session,
    first: bool,
    second: bool,
)
    requires
        tears_down(s0, s1, first),
        tears_down(s1, s2, second),
    ensures
        !second,
        first == s0.is_open(),
{
}

/// Listing the output pins twice with nothing in between gives the same
/// pins, as a multiset.
pub proof fn lemma_listing_stable(s: Session, first: Seq<u32>, second: Seq<u32>)
    requires
        first == s.outputs(),
        second == s.outputs(),
    ensures
        first.to_multiset() == second.to_multiset(),
{
}

} // verus!
