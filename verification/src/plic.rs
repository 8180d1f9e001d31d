//! The platform-level interrupt controller, in the SiFive layout that QEMU's
//! `virt` machine and most Linux device trees expect.
//!
//! The PLIC routes device interrupts to *contexts* -- a hart at a privilege
//! level -- and arbitrates between them by priority. The part worth
//! understanding is the claim/complete handshake: a handler claims an
//! interrupt, which atomically tells it which device fired and stops that
//! source from interrupting again, and completes it once the device has been
//! serviced. Without the second half a level-triggered device would re-raise
//! the instant the handler returned.

use vstd::prelude::*;

verus! {

pub const PLIC_BASE: u64 = 0x0C00_0000;

pub const PLIC_SIZE: u64 = 0x0400_0000;

/// Sources are numbered from 1; 0 means "no interrupt" in a claim.
pub const MAX_SOURCES: u32 = 32;

/// Context 0 is hart 0 in machine mode, context 1 is hart 0 in supervisor
/// mode. That is the arrangement a single-hart device tree describes.
pub const CONTEXTS: usize = 2;

pub const CONTEXT_MACHINE: usize = 0;

pub const CONTEXT_SUPERVISOR: usize = 1;

pub const PENDING_BASE: u64 = 0x1000;

pub const ENABLE_BASE: u64 = 0x2000;

pub const ENABLE_STRIDE: u64 = 0x80;

pub const CONTEXT_CONTROL_BASE: u64 = 0x20_0000;

pub const CONTEXT_STRIDE: u64 = 0x1000;

/// Whether a word with one bit per source has this source's bit set.
pub open spec fn has(word: u32, source: u32) -> bool {
    word & (1u32 << source) != 0
}

/// What the controller holds.
#[verifier::ext_equal]
pub struct PlicState {
    /// Per-source priority; 0 means "never interrupt".
    pub priority: Seq<u32>,
    /// The lines that devices are asserting now, one bit per source.
    pub levels: u32,
    /// The sources claimed and not yet completed.
    pub claimed: u32,
    /// The sources each context has enabled.
    pub enable: Seq<u32>,
    /// The priority each context masks up to.
    pub threshold: Seq<u32>,
}

impl PlicState {
    pub open spec fn wf(self) -> bool {
        &&& self.priority.len() == 32
        &&& self.enable.len() == 2
        &&& self.threshold.len() == 2
    }

    pub open spec fn reset() -> PlicState {
        PlicState {
            priority: Seq::new(32, |i: int| 0u32),
            levels: 0,
            claimed: 0,
            enable: Seq::new(2, |i: int| 0u32),
            threshold: Seq::new(2, |i: int| 0u32),
        }
    }

    pub open spec fn set_level(self, source: u32, asserted: bool) -> PlicState {
        if source == 0 || source >= MAX_SOURCES {
            self
        } else if asserted {
            PlicState { levels: self.levels | (1u32 << source), ..self }
        } else {
            PlicState { levels: self.levels & !(1u32 << source), ..self }
        }
    }

    pub open spec fn pending(self) -> u32 {
        self.levels & !self.claimed
    }

    /// Whether this context may take this source: its line is asserted, it is
    /// not being serviced, it is enabled, and its priority is strictly above
    /// the threshold.
    pub open spec fn takes(self, context: int, source: u32) -> bool {
        &&& 1 <= source < MAX_SOURCES
        &&& has(self.pending() & self.enable[context], source)
        &&& self.priority[source as int] > self.threshold[context]
    }

    /// Whether this source wins the arbitration: no other that the context
    /// may take has a higher priority, or an equal one and a lower number.
    pub open spec fn wins(self, context: int, source: u32) -> bool {
        &&& self.takes(context, source)
        &&& forall|other: u32| #[trigger]
            self.takes(context, other) ==> {
                ||| self.priority[other as int] < self.priority[source as int]
                ||| self.priority[other as int] == self.priority[source as int] && source <= other
            }
    }

    /// The source this context should take next, or 0 for none.
    pub open spec fn best(self, context: int) -> u32 {
        if exists|source: u32| self.wins(context, source) {
            choose|source: u32| self.wins(context, source)
        } else {
            0
        }
    }

    pub open spec fn is_pending(self, context: int) -> bool {
        self.best(context) != 0
    }

    /// A claim takes the winner out of the running.
    pub open spec fn claim(self, context: int) -> PlicState {
        let source = self.best(context);
        if source != 0 {
            PlicState { claimed: self.claimed | (1u32 << source), ..self }
        } else {
            self
        }
    }

    pub open spec fn complete(self, source: u32) -> PlicState {
        if source < MAX_SOURCES {
            PlicState { claimed: self.claimed & !(1u32 << source), ..self }
        } else {
            self
        }
    }

    /// Which context an offset in the enable area belongs to, if it is the
    /// one word that context has.
    pub open spec fn enable_word(offset: u64) -> Option<int> {
        let context = (offset - ENABLE_BASE) / ENABLE_STRIDE as int;
        if (offset - ENABLE_BASE) % ENABLE_STRIDE as int == 0 && context < CONTEXTS {
            Some(context)
        } else {
            None
        }
    }

    /// Which context an offset in the control area belongs to, and the field.
    pub open spec fn control(offset: u64) -> Option<(int, u64)> {
        let context = (offset - CONTEXT_CONTROL_BASE) / CONTEXT_STRIDE as int;
        if context < CONTEXTS {
            Some((context, ((offset - CONTEXT_CONTROL_BASE) % CONTEXT_STRIDE as int) as u64))
        } else {
            None
        }
    }

    /// What a load at an offset returns.
    pub open spec fn read_value(self, offset: u64) -> u64 {
        if offset < PENDING_BASE {
            if offset / 4 < MAX_SOURCES {
                self.priority[(offset / 4) as int] as u64
            } else {
                0
            }
        } else if offset < ENABLE_BASE {
            if offset == PENDING_BASE {
                self.pending() as u64
            } else {
                0
            }
        } else if offset < CONTEXT_CONTROL_BASE {
            match Self::enable_word(offset) {
                Some(context) => self.enable[context] as u64,
                None => 0,
            }
        } else {
            match Self::control(offset) {
                Some((context, 0)) => self.threshold[context] as u64,
                Some((context, 4)) => self.best(context) as u64,
                _ => 0,
            }
        }
    }

    /// What a load at an offset leaves behind: only a claim changes anything.
    pub open spec fn after_read(self, offset: u64) -> PlicState {
        if offset >= CONTEXT_CONTROL_BASE {
            match Self::control(offset) {
                Some((context, 4)) => self.claim(context),
                _ => self,
            }
        } else {
            self
        }
    }

    pub open spec fn write(self, offset: u64, value: u64) -> PlicState {
        let word = value as u32;
        if offset < PENDING_BASE {
            if 0 < offset / 4 < MAX_SOURCES {
                PlicState { priority: self.priority.update((offset / 4) as int, word), ..self }
            } else {
                self
            }
        } else if offset < ENABLE_BASE {
            self
        } else if offset < CONTEXT_CONTROL_BASE {
            match Self::enable_word(offset) {
                Some(context) => PlicState {
                    enable: self.enable.update(context, word & !1u32),
                    ..self
                },
                None => self,
            }
        } else {
            match Self::control(offset) {
                Some((context, 0)) => PlicState {
                    threshold: self.threshold.update(context, word),
                    ..self
                },
                Some((context, 4)) => self.complete(word),
                _ => self,
            }
        }
    }
}

/// There is at most one winner, so whichever is found is the best.
proof fn lemma_best(s: PlicState, context: int, source: u32)
    requires
        s.wins(context, source),
    ensures
        s.best(context) == source,
{
    let chosen = s.best(context);
    assert(s.wins(context, chosen));
    assert(s.takes(context, chosen) && s.takes(context, source));
}

/// A source with no other above it among the first `n` has none at all once
/// they have all been looked at.
pub open spec fn best_below(s: PlicState, context: int, n: u32, source: u32) -> bool {
    &&& source != 0 ==> source < n && s.takes(context, source)
    &&& forall|other: u32|
        other < n && #[trigger] s.takes(context, other) ==> {
            &&& source != 0
            &&& {
                ||| s.priority[other as int] < s.priority[source as int]
                ||| s.priority[other as int] == s.priority[source as int] && source <= other
            }
        }
}

pub struct Plic {
    priority: [u32; 32],
    levels: u32,
    claimed: u32,
    enable: [u32; 2],
    threshold: [u32; 2],
}

impl View for Plic {
    type V = PlicState;

    closed spec fn view(&self) -> PlicState {
        PlicState {
            priority: self.priority@,
            levels: self.levels,
            claimed: self.claimed,
            enable: self.enable@,
            threshold: self.threshold@,
        }
    }
}

impl Default for Plic {
    fn default() -> (r: Self)
        ensures
            r@ == PlicState::reset(),
    {
        let r = Plic { priority: [0;32], levels: 0, claimed: 0, enable: [0;2], threshold: [0;2] };
        assert(r@ =~= PlicState::reset());
        r
    }
}

impl Plic {
    pub proof fn lemma_wf(&self)
        ensures
            self@.wf(),
    {
    }

    /// Sets or clears a device's interrupt line.
    pub fn set_level(&mut self, source: u32, asserted: bool)
        ensures
            final(self)@ == old(self)@.set_level(source, asserted),
    {
        if source == 0 || source >= MAX_SOURCES {
            return ;
        }
        if asserted {
            self.levels = self.levels | (1u32 << source);
        } else {
            self.levels = self.levels & !(1u32 << source);
        }
    }

    /// Sources that are asserting and have not been claimed.
    fn pending(&self) -> (r: u32)
        ensures
            r == self@.pending(),
    {
        self.levels & !self.claimed
    }

    /// The highest-priority source this context should take, or 0 for none.
    ///
    /// Ties go to the lowest source number, which is what the spec requires
    /// so that arbitration is deterministic.
    fn best(&self, context: usize) -> (r: u32)
        requires
            context < CONTEXTS,
        ensures
            r == self@.best(context as int),
            r < MAX_SOURCES,
    {
        let candidates = self.pending() & self.enable[context];
        let mut best: u32 = 0;
        let mut best_priority: u32 = self.threshold[context];
        let mut source: u32 = 1;
        assert(best_below(self@, context as int, 1, 0));
        while source < MAX_SOURCES
            invariant
                context < CONTEXTS,
                candidates == self@.pending() & self@.enable[context as int],
                1 <= source <= MAX_SOURCES,
                best < source,
                best_priority == (if best == 0 {
                    self@.threshold[context as int]
                } else {
                    self@.priority[best as int]
                }),
                best_below(self@, context as int, source, best),
            decreases MAX_SOURCES - source,
        {
            // Strictly greater: a priority equal to the threshold is masked.
            if candidates & (1u32 << source) != 0 && self.priority[source as usize]
                > best_priority {
                best = source;
                best_priority = self.priority[source as usize];
            }
            source = source + 1;
        }
        proof {
            let s = self@;
            if best != 0 {
                assert(s.wins(context as int, best));
                lemma_best(s, context as int, best);
            } else {
                assert forall|other: u32| !s.wins(context as int, other) by {
                    if s.wins(context as int, other) {
                        assert(s.takes(context as int, other));
                    }
                }
            }
        }
        best
    }

    /// Whether this context has an interrupt waiting, which is what drives
    /// the external-interrupt bit in `mip`.
    pub fn is_pending(&self, context: usize) -> (r: bool)
        requires
            context < CONTEXTS,
        ensures
            r == self@.is_pending(context as int),
    {
        self.best(context) != 0
    }

    /// Claims the highest-priority interrupt for a context.
    ///
    /// This is a read with a side effect by design: it hands back the source
    /// number and marks it claimed in one step, so two harts racing on the
    /// same interrupt cannot both service it.
    fn claim(&mut self, context: usize) -> (r: u32)
        requires
            context < CONTEXTS,
        ensures
            r == old(self)@.best(context as int),
            final(self)@ == old(self)@.claim(context as int),
    {
        let source = self.best(context);
        if source != 0 {
            self.claimed = self.claimed | (1u32 << source);
        }
        source
    }

    /// Marks a source serviced. If its line is still asserted it becomes
    /// pending again immediately, which is correct for a level-triggered
    /// device that has not been quietened.
    fn complete(&mut self, source: u32)
        ensures
            final(self)@ == old(self)@.complete(source),
    {
        if source < MAX_SOURCES {
            self.claimed = self.claimed & !(1u32 << source);
        }
    }

    pub fn read(&mut self, offset: u64) -> (r: u64)
        ensures
            r == old(self)@.read_value(offset),
            final(self)@ == old(self)@.after_read(offset),
    {
        if offset < PENDING_BASE {
            let source = offset / 4;
            if source < MAX_SOURCES as u64 {
                self.priority[source as usize] as u64
            } else {
                0
            }
        } else if offset < ENABLE_BASE {
            // Only the first word exists with 32 sources.
            if offset == PENDING_BASE {
                self.pending() as u64
            } else {
                0
            }
        } else if offset < CONTEXT_CONTROL_BASE {
            let context = (offset - ENABLE_BASE) / ENABLE_STRIDE;
            let word = (offset - ENABLE_BASE) % ENABLE_STRIDE;
            if word == 0 && context < CONTEXTS as u64 {
                self.enable[context as usize] as u64
            } else {
                0
            }
        } else {
            let context = (offset - CONTEXT_CONTROL_BASE) / CONTEXT_STRIDE;
            let field = (offset - CONTEXT_CONTROL_BASE) % CONTEXT_STRIDE;
            if context >= CONTEXTS as u64 {
                return 0;
            }
            match field {
                0 => self.threshold[context as usize] as u64,
                4 => self.claim(context as usize) as u64,
                _ => 0,
            }
        }
    }

    pub fn write(&mut self, offset: u64, value: u64)
        ensures
            final(self)@ == old(self)@.write(offset, value),
    {
        let word = value as u32;
        if offset < PENDING_BASE {
            let source = offset / 4;
            // Source 0 does not exist and its priority is hardwired to 0.
            if source > 0 && source < MAX_SOURCES as u64 {
                self.priority[source as usize] = word;
            }
        } else if offset < ENABLE_BASE {
            // The pending register is read-only; a device asserts its line
            // instead of software setting the bit.
        } else if offset < CONTEXT_CONTROL_BASE {
            let context = (offset - ENABLE_BASE) / ENABLE_STRIDE;
            let rest = (offset - ENABLE_BASE) % ENABLE_STRIDE;
            if rest == 0 && context < CONTEXTS as u64 {
                // Source 0 can never be enabled.
                self.enable[context as usize] = word & !1u32;
            }
        } else {
            let context = (offset - CONTEXT_CONTROL_BASE) / CONTEXT_STRIDE;
            let field = (offset - CONTEXT_CONTROL_BASE) % CONTEXT_STRIDE;
            if context >= CONTEXTS as u64 {
                return ;
            }
            match field {
                0 => self.threshold[context as usize] = word,
                4 => self.complete(word),
                _ => {},
            }
        }
    }
}

/// A claim hands out a source that was asking, and from then on that source
/// is out of the running for every context, even while its line stays high.
pub proof fn law_a_claim_masks_the_source(s: PlicState, context: int, other: int)
    requires
        s.best(context) != 0,
    ensures
        s.takes(context, s.best(context)),
        !s.claim(context).takes(other, s.best(context)),
{
    let source = s.best(context);
    assert(s.wins(context, source));
    let (l, c, e) = (s.levels, s.claimed, s.enable[other]);
    assert(((l & !(c | (1u32 << source))) & e) & (1u32 << source) == 0) by (bit_vector);
}

/// Completing the claimed source undoes the claim, so a line that is still
/// asserted asks again at once.
pub proof fn law_complete_undoes_a_claim(s: PlicState, context: int)
    requires
        s.best(context) != 0,
    ensures
        s.claim(context).complete(s.best(context)) == s,
{
    let source = s.best(context);
    assert(s.wins(context, source) && s.takes(context, source));
    let (l, c, e) = (s.levels, s.claimed, s.enable[context]);
    assert((c | (1u32 << source)) & !(1u32 << source) == c) by (bit_vector)
        requires
            ((l & !c) & e) & (1u32 << source) != 0,
    ;
}

/// Quietening a device takes its source out of the running.
pub proof fn law_a_lowered_line_is_not_taken(s: PlicState, context: int, source: u32)
    ensures
        !s.set_level(source, false).takes(context, source),
{
    let (l, c, e) = (s.levels, s.claimed, s.enable[context]);
    assert(((l & !(1u32 << source) & !c) & e) & (1u32 << source) == 0) by (bit_vector);
}

/// Moving one line leaves every other line as it was.
pub proof fn law_a_line_moves_alone(s: PlicState, source: u32, asserted: bool, other: u32)
    requires
        other < MAX_SOURCES,
        other != source,
    ensures
        has(s.set_level(source, asserted).levels, other) == has(s.levels, other),
{
    let l = s.levels;
    if source < MAX_SOURCES {
        assert(((l | (1u32 << source)) & (1u32 << other) != 0) == (l & (1u32 << other) != 0)
            && ((l & !(1u32 << source)) & (1u32 << other) != 0) == (l & (1u32 << other) != 0))
            by (bit_vector)
            requires
                other < 32,
                source < 32,
                other != source,
        ;
    }
}

/// A source whose priority does not exceed the threshold never interrupts,
/// and one of priority zero never does under any threshold.
pub proof fn law_the_threshold_masks(s: PlicState, context: int, source: u32)
    requires
        s.priority[source as int] <= s.threshold[context] || s.priority[source as int] == 0,
    ensures
        s.best(context) != source || source == 0,
{
    if s.best(context) == source && source != 0 {
        assert(s.wins(context, source));
    }
}

/// Some source is the best of the first `n`, or none of them is to be taken.
proof fn lemma_some_best(s: PlicState, context: int, n: u32) -> (r: u32)
    requires
        1 <= n <= MAX_SOURCES,
    ensures
        best_below(s, context, n, r),
    decreases n,
{
    if n == 1 {
        0
    } else {
        let r = lemma_some_best(s, context, (n - 1) as u32);
        let last = (n - 1) as u32;
        if s.takes(context, last) && (r == 0 || s.priority[last as int] > s.priority[r as int]) {
            last
        } else {
            r
        }
    }
}

/// Arbitration always finds the winner: while any source is waiting a claim
/// hands one out, and the one it hands out has no better beside it.
pub proof fn law_arbitration_finds_the_winner(s: PlicState, context: int, waiting: u32)
    requires
        s.takes(context, waiting),
    ensures
        s.best(context) != 0,
        s.wins(context, s.best(context)),
{
    let r = lemma_some_best(s, context, MAX_SOURCES);
    assert(s.wins(context, r));
    lemma_best(s, context, r);
}

} // verus!
