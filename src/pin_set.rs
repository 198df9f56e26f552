//! A fixed-capacity, allocation-free set of pin numbers.

use vstd::prelude::*;
use vstd::seq_lib::seq_to_set_is_finite;
use vstd::set_lib::lemma_len_subset;
use vstd::slice::slice_subrange;

verus! {

/// The most pins a set can hold, one slot for each addressable pin.
pub const MAX_PINS: usize = 28;

/// Whether `add` would take `pin` into a set holding `s`.
pub open spec fn accepts(s: Seq<u32>, pin: u32) -> bool {
    s.len() < MAX_PINS && !s.contains(pin)
}

/// The contents after adding `pin` to a set holding `s`.
pub open spec fn added(s: Seq<u32>, pin: u32) -> Seq<u32> {
    if accepts(s, pin) {
        s.push(pin)
    } else {
        s
    }
}

/// The contents after a best-effort load of `input`: each value is added in
/// turn, skipping duplicates and whatever no longer fits.
pub open spec fn loaded(input: Seq<u32>) -> Seq<u32>
    decreases input.len(),
{
    if input.len() == 0 {
        Seq::empty()
    } else {
        added(loaded(input.drop_last()), input.last())
    }
}

/// The contents after swap-removing the element at index `i` of `s`: the last
/// element takes its slot.
pub open spec fn swap_removed(s: Seq<u32>, i: int) -> Seq<u32> {
    s.update(i, s.last()).drop_last()
}

/// A fixed-capacity set of pin numbers. Slots `[0, count)` hold the members,
/// in no meaningful order.
pub struct PinSet {
    pins: [u32; MAX_PINS],
    count: usize,
}

impl View for PinSet {
    type V = Seq<u32>;

    closed spec fn view(&self) -> Seq<u32> {
        self.pins@.subrange(0, self.count as int)
    }
}

impl PinSet {
    /// The count fits the backing array and no member appears twice.
    pub closed spec fn wf(&self) -> bool {
        &&& self.count <= MAX_PINS
        &&& self@.no_duplicates()
    }

    proof fn lemma_view_len(&self)
        requires
            self.count <= MAX_PINS,
        ensures
            self@.len() == self.count,
            forall|i: int| 0 <= i < self.count ==> #[trigger] self@[i] == self.pins@[i],
    {
    }

    /// The members of a well-formed set are distinct and fit its capacity.
    pub proof fn lemma_members_distinct(&self)
        requires
            self.wf(),
        ensures
            self@.no_duplicates(),
            self@.len() <= MAX_PINS,
    {
    }

    /// Creates an empty set.
    pub fn new() -> (r: Self)
        ensures
            r.wf(),
            r@ == Seq::<u32>::empty(),
    {
        let r = PinSet { pins: [0u32; MAX_PINS], count: 0 };
        proof {
            assert(r@ =~= Seq::<u32>::empty());
        }
        r
    }

    /// Whether `pin` is a member.
    pub fn contains(&self, pin: u32) -> (r: bool)
        requires
            self.wf(),
        ensures
            r == self@.contains(pin),
    {
        proof {
            self.lemma_view_len();
        }
        let mut i: usize = 0;
        while i < self.count
            invariant
                self.wf(),
                i <= self.count,
                self@.len() == self.count,
                forall|j: int| 0 <= j < i ==> self@[j] != pin,
            decreases self.count - i,
        {
            if self.pins[i] == pin {
                proof {
                    self.lemma_view_len();
                    assert(self@[i as int] == pin);
                }
                return true;
            }
            i = i + 1;
        }
        false
    }

    /// Adds `pin` unless it is already a member or the set is full; returns
    /// whether it was added.
    pub fn add(&mut self, pin: u32) -> (r: bool)
        requires
            old(self).wf(),
        ensures
            final(self).wf(),
            r == accepts(old(self)@, pin),
            final(self)@ == added(old(self)@, pin),
            forall|q: u32| #[trigger]
                final(self)@.contains(q) <==> old(self)@.contains(q) || (r && q == pin),
    {
        proof {
            self.lemma_view_len();
        }
        if self.count >= MAX_PINS || self.contains(pin) {
            return false;
        }
        self.pins[self.count] = pin;
        self.count = self.count + 1;
        proof {
            let s = old(self)@;
            assert(self@ =~= s.push(pin));
            assert forall|q: u32| #[trigger] self@.contains(q) <==> s.contains(q) || q == pin by {
                if self@.contains(q) && q != pin {
                    let k = choose|k: int| 0 <= k < self@.len() && self@[k] == q;
                    assert(s[k] == q);
                }
                if s.contains(q) {
                    let k = choose|k: int| 0 <= k < s.len() && s[k] == q;
                    assert(self@[k] == q);
                }
                if q == pin {
                    assert(self@[s.len() as int] == q);
                }
            }
        }
        true
    }

    /// Removes `pin` if it is a member, moving the last member into its slot;
    /// returns whether it was removed.
    pub fn remove(&mut self, pin: u32) -> (r: bool)
        requires
            old(self).wf(),
        ensures
            final(self).wf(),
            r == old(self)@.contains(pin),
            r ==> exists|i: int|
                0 <= i < old(self)@.len() && old(self)@[i] == pin && final(self)@ == swap_removed(
                    old(self)@,
                    i,
                ),
            !r ==> final(self)@ == old(self)@,
            final(self)@.len() == if r {
                old(self)@.len() - 1
            } else {
                old(self)@.len() as int
            },
            final(self)@.to_set() == old(self)@.to_set().remove(pin),
            forall|q: u32| #[trigger]
                final(self)@.contains(q) <==> old(self)@.contains(q) && q != pin,
    {
        proof {
            self.lemma_view_len();
        }
        let ghost s = self@;
        let mut i: usize = 0;
        while i < self.count
            invariant
                self.wf(),
                self@ == s,
                s == old(self)@,
                i <= self.count,
                s.len() == self.count,
                forall|j: int| 0 <= j < self.count ==> #[trigger] s[j] == self.pins@[j],
                forall|j: int| 0 <= j < i ==> s[j] != pin,
            decreases self.count - i,
        {
            if self.pins[i] == pin {
                let last = self.pins[self.count - 1];
                self.pins[i] = last;
                self.count = self.count - 1;
                proof {
                    let t = swap_removed(s, i as int);
                    assert(self@ =~= t);
                    assert(s.contains(pin)) by {
                        assert(s[i as int] == pin);
                    }
                    assert forall|a: int, b: int| 0 <= a < b < t.len() implies t[a] != t[b] by {
                        if b == i {
                            assert(s[a] != s[s.len() - 1]);
                        } else if a == i {
                            assert(s[b] != s[s.len() - 1]);
                        } else {
                            assert(s[a] != s[b]);
                        }
                    }
                    assert forall|x: u32| #[trigger] t.contains(x) <==> s.contains(x) && x != pin by {
                        if t.contains(x) {
                            let k = choose|k: int| 0 <= k < t.len() && t[k] == x;
                            if k == i {
                                assert(s[s.len() - 1] == x);
                                assert(s[i as int] == pin);
                                assert(s[i as int] != s[s.len() - 1]);
                                assert(s.contains(x));
                            } else {
                                assert(s[k] == x);
                                assert(s.contains(x));
                                assert(s[i as int] != s[k]);
                            }
                        }
                        if s.contains(x) && x != pin {
                            let k = choose|k: int| 0 <= k < s.len() && s[k] == x;
                            if k == s.len() - 1 {
                                assert(t[i as int] == x);
                                assert(t.contains(x));
                            } else {
                                assert(k != i);
                                assert(t[k] == x);
                                assert(t.contains(x));
                            }
                        }
                    }
                    assert(t.to_set() =~= s.to_set().remove(pin));
                }
                return true;
            }
            i = i + 1;
        }
        proof {
            assert(!s.contains(pin));
            assert(s.to_set() =~= s.to_set().remove(pin));
        }
        false
    }

    /// Builds a set from `pins`, taking each value in order unless it is
    /// already present or the set is full. Nothing is reported of what was
    /// left out.
    pub fn init_with(pins: &[u32]) -> (r: Self)
        ensures
            r.wf(),
            r@ == loaded(pins@),
    {
        let mut new_set = PinSet::new();
        let mut i: usize = 0;
        proof {
            assert(pins@.subrange(0, 0) =~= Seq::<u32>::empty());
        }
        while i < pins.len()
            invariant
                new_set.wf(),
                i <= pins@.len(),
                new_set@ == loaded(pins@.subrange(0, i as int)),
            decreases pins@.len() - i,
        {
            let pin = pins[i];
            new_set.add(pin);
            proof {
                let next = pins@.subrange(0, i + 1);
                assert(next.drop_last() =~= pins@.subrange(0, i as int));
                assert(next.last() == pin);
            }
            i = i + 1;
        }
        proof {
            assert(pins@.subrange(0, pins@.len() as int) =~= pins@);
        }
        new_set
    }

    /// The number of members.
    pub fn len(&self) -> (r: usize)
        requires
            self.wf(),
        ensures
            r == self@.len(),
    {
        proof {
            self.lemma_view_len();
        }
        self.count
    }

    /// Whether the set has no members.
    pub fn is_empty(&self) -> (r: bool)
        requires
            self.wf(),
        ensures
            r == (self@.len() == 0),
    {
        proof {
            self.lemma_view_len();
        }
        self.count == 0
    }

    /// The members, in the order of their slots.
    pub fn as_slice(&self) -> (r: &[u32])
        requires
            self.wf(),
        ensures
            r@ == self@,
    {
        slice_subrange(self.pins.as_slice(), 0, self.count)
    }
}

/// A set never grows past its capacity, and a best-effort load keeps the
/// values it took distinct and drawn from the input; when it is not full, it
/// took every value of the input.
pub proof fn lemma_load_within_capacity(input: Seq<u32>)
    ensures
        loaded(input).len() <= MAX_PINS,
        loaded(input).no_duplicates(),
        forall|x: u32| #[trigger] loaded(input).contains(x) ==> input.contains(x),
        loaded(input).len() < MAX_PINS ==> forall|x: u32|
            #[trigger] input.contains(x) ==> loaded(input).contains(x),
    decreases input.len(),
{
    if input.len() > 0 {
        let rest = input.drop_last();
        lemma_load_within_capacity(rest);
        let prev = loaded(rest);
        let v = input.last();
        assert forall|x: u32| #[trigger] loaded(input).contains(x) implies input.contains(x) by {
            if loaded(input).contains(x) {
                if prev.contains(x) {
                    let k = choose|k: int| 0 <= k < rest.len() && rest[k] == x;
                    assert(input[k] == x);
                } else {
                    assert(x == v);
                    assert(input[input.len() - 1] == x);
                }
            }
        }
        if loaded(input).len() < MAX_PINS {
            assert forall|x: u32| #[trigger] input.contains(x) implies loaded(input).contains(x) by {
                let k = choose|k: int| 0 <= k < input.len() && input[k] == x;
                if k == input.len() - 1 {
                    if accepts(prev, v) {
                        assert(loaded(input)[prev.len() as int] == x);
                    }
                } else {
                    assert(rest[k] == x);
                    assert(rest.contains(x));
                    assert(prev.contains(x));
                    let j = choose|j: int| 0 <= j < prev.len() && prev[j] == x;
                    assert(loaded(input)[j] == x);
                }
            }
        }
        if accepts(prev, v) {
            assert forall|a: int, b: int| 0 <= a < b < loaded(input).len() implies loaded(input)[a]
                != loaded(input)[b] by {
                if b == prev.len() {
                    assert(prev.contains(prev[a]));
                }
            }
        }
    }
}

/// Adding the same pin twice has the effect of adding it once: the second
/// add is refused.
pub proof fn lemma_add_twice(s: Seq<u32>, pin: u32)
    ensures
        !accepts(added(s, pin), pin),
        added(added(s, pin), pin) == added(s, pin),
{
    if accepts(s, pin) {
        assert(s.push(pin)[s.len() as int] == pin);
    }
}

/// Distinct pin numbers all below `n` number at most `n`.
pub proof fn lemma_distinct_below(s: Seq<u32>, n: u32)
    requires
        s.no_duplicates(),
        forall|x: u32| #[trigger] s.contains(x) ==> x < n,
    ensures
        s.len() <= n,
    decreases n,
{
    if n == 0 {
        if s.len() > 0 {
            assert(s.contains(s[0]));
        }
    } else {
        let top = (n - 1) as u32;
        if s.contains(top) {
            let k = choose|k: int| 0 <= k < s.len() && s[k] == top;
            let t = s.remove(k);
            assert forall|j: int| 0 <= j < t.len() implies #[trigger] t[j] == (if j < k {
                s[j]
            } else {
                s[j + 1]
            }) by {}
            assert forall|x: u32| #[trigger] t.contains(x) implies x < top by {
                let j = choose|j: int| 0 <= j < t.len() && t[j] == x;
                if j < k {
                    assert(s[j] == x);
                    assert(s.contains(x));
                    assert(s[j] != s[k]);
                } else {
                    assert(s[j + 1] == x);
                    assert(s.contains(x));
                    assert(s[j + 1] != s[k]);
                }
            }
            assert forall|a: int, b: int| 0 <= a < b < t.len() implies t[a] != t[b] by {
                let sa = if a < k {
                    a
                } else {
                    a + 1
                };
                let sb = if b < k {
                    b
                } else {
                    b + 1
                };
                assert(s[sa] != s[sb]);
            }
            lemma_distinct_below(t, top);
        } else {
            assert forall|x: u32| #[trigger] s.contains(x) implies x < top by {
                assert(x != top);
            }
            lemma_distinct_below(s, top);
        }
    }
}

/// Distinct pin numbers that include every number below `n` number at
/// least `n`.
pub proof fn lemma_distinct_covering(s: Seq<u32>, n: u32)
    requires
        s.no_duplicates(),
        forall|x: u32| x < n ==> #[trigger] s.contains(x),
    ensures
        s.len() >= n,
{
    let t = Seq::new(n as nat, |i: int| i as u32);
    assert(t.no_duplicates());
    assert forall|x: u32| #[trigger] t.to_set().contains(x) implies s.to_set().contains(x) by {
        assert(t.contains(x));
        let k = choose|k: int| 0 <= k < t.len() && t[k] == x;
        assert(x < n);
        assert(s.contains(x));
    }
    assert(t.to_set().subset_of(s.to_set()));
    seq_to_set_is_finite(s);
    lemma_len_subset(t.to_set(), s.to_set());
    t.unique_seq_to_set();
    s.unique_seq_to_set();
}

} // verus!
