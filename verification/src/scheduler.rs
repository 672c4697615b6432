//! The frame scheduler: a throttle on display-refresh ticks.
//!
//! The host calls the scheduler once for every display refresh with the time
//! of that refresh. A tick is accepted when more than the minimum interval
//! has passed since the last accepted tick; an accepted tick redraws every
//! surface. Accepted or not, every tick asks to be called again.

use crate::interval_text::{
    interval_of_text, is_infinity, lemma_cut_off_loses_nothing, parse_interval, span_exceeds,
    unsigned_part,
};
use crate::registry::{SurfaceHandle, SurfaceRegistry};
use vstd::prelude::*;

verus! {

/// The minimum interval of a new render state: fifty milliseconds.
pub const DEFAULT_MIN_INTERVAL: u64 = 50_000;

/// What a render state holds, as plain numbers.
pub struct RenderStateView {
    /// The number of ticks accepted so far.
    pub render_count: nat,
    /// The time of the last accepted tick, or zero before the first.
    pub last_render_timestamp: nat,
    /// The time that has to pass between two accepted ticks, cut off to
    /// whole microseconds.
    pub min_interval: nat,
    /// Whether surfaces are redrawn as noise.
    pub noise_enabled: bool,
}

impl RenderStateView {
    /// The state in which nothing was rendered yet, with the default minimum
    /// interval and noise switched off.
    pub open spec fn initial() -> RenderStateView {
        RenderStateView {
            render_count: 0,
            last_render_timestamp: 0,
            min_interval: DEFAULT_MIN_INTERVAL as nat,
            noise_enabled: false,
        }
    }

    /// Whether a tick at `timestamp` is accepted: strictly more than the
    /// minimum interval lies between it and the last accepted tick.
    pub open spec fn accepts(self, timestamp: nat) -> bool {
        timestamp - self.last_render_timestamp > self.min_interval
    }

    /// The state after a tick at `timestamp`.
    pub open spec fn tick(self, timestamp: nat) -> RenderStateView {
        if self.accepts(timestamp) {
            RenderStateView {
                render_count: self.render_count + 1,
                last_render_timestamp: timestamp,
                ..self
            }
        } else {
            self
        }
    }

    /// The state after the interval control handed over `text`: a text that
    /// is worth an interval sets it, any other text changes nothing.
    pub open spec fn with_interval_text(self, text: Seq<char>) -> RenderStateView {
        match interval_of_text(text) {
            Some(interval) => RenderStateView { min_interval: interval as nat, ..self },
            None => self,
        }
    }

    /// The state after the noise toggle was hit.
    pub open spec fn toggled(self) -> RenderStateView {
        RenderStateView { noise_enabled: !self.noise_enabled, ..self }
    }

    /// The state after the ticks at `timestamps`, taken in their order.
    pub open spec fn run(self, timestamps: Seq<nat>) -> RenderStateView
        decreases timestamps.len(),
    {
        if timestamps.len() == 0 {
            self
        } else {
            self.run(timestamps.drop_last()).tick(timestamps.last())
        }
    }

    /// Whether tick number `i` of `timestamps` is accepted when the ticks are
    /// taken in their order, starting from this state.
    pub open spec fn accepted_at(self, timestamps: Seq<nat>, i: int) -> bool {
        self.run(timestamps.take(i)).accepts(timestamps[i])
    }

    /// The number of accepted ticks among the first `n` of `timestamps`.
    pub open spec fn accepted_count(self, timestamps: Seq<nat>, n: int) -> nat
        decreases n,
    {
        if n <= 0 {
            0
        } else {
            self.accepted_count(timestamps, n - 1) + if self.accepted_at(timestamps, n - 1) {
                1nat
            } else {
                0nat
            }
        }
    }

    /// Whether tick number `j` is the last accepted one before tick number
    /// `i`.
    pub open spec fn is_last_accepted_before(self, timestamps: Seq<nat>, j: int, i: int) -> bool {
        &&& 0 <= j < i
        &&& self.accepted_at(timestamps, j)
        &&& forall|k: int| j < k < i ==> !#[trigger] self.accepted_at(timestamps, k)
    }
}

/// Whether each time of `timestamps` is later than the one before it.
pub open spec fn strictly_increasing(timestamps: Seq<nat>) -> bool {
    forall|i: int, j: int| 0 <= i < j < timestamps.len() ==> timestamps[i] < timestamps[j]
}

/// The state of the throttle.
pub struct RenderState {
    render_count: u64,
    last_render_timestamp: u64,
    min_interval: u64,
    noise_enabled: bool,
}

impl View for RenderState {
    type V = RenderStateView;

    closed spec fn view(&self) -> RenderStateView {
        RenderStateView {
            render_count: self.render_count as nat,
            last_render_timestamp: self.last_render_timestamp as nat,
            min_interval: self.min_interval as nat,
            noise_enabled: self.noise_enabled,
        }
    }
}

impl RenderState {
    /// No more ticks were accepted than microseconds have passed: every
    /// accepted tick moves the last render time forward.
    #[verifier::type_invariant]
    spec fn well_formed(self) -> bool {
        self.render_count <= self.last_render_timestamp
    }

    /// A state in which nothing was rendered yet, with the default minimum
    /// interval and noise switched off.
    pub fn new() -> (state: Self)
        ensures
            state@ == RenderStateView::initial(),
    {
        RenderState {
            render_count: 0,
            last_render_timestamp: 0,
            min_interval: DEFAULT_MIN_INTERVAL,
            noise_enabled: false,
        }
    }

    /// The number of ticks accepted so far.
    pub fn render_count(&self) -> (n: u64)
        ensures
            n == self@.render_count,
    {
        self.render_count
    }

    /// The time of the last accepted tick.
    pub fn last_render_timestamp(&self) -> (t: u64)
        ensures
            t == self@.last_render_timestamp,
    {
        self.last_render_timestamp
    }

    /// The minimum interval in whole microseconds. It is zero where the
    /// interval that was set is shorter than a microsecond.
    pub fn min_interval(&self) -> (interval: u64)
        ensures
            interval == self@.min_interval,
    {
        self.min_interval
    }

    /// Whether surfaces are redrawn as noise.
    pub fn noise_enabled(&self) -> (enabled: bool)
        ensures
            enabled == self@.noise_enabled,
    {
        self.noise_enabled
    }

    /// Whether a tick at `timestamp` would be accepted.
    pub fn accepts(&self, timestamp: u64) -> (accepted: bool)
        ensures
            accepted == self@.accepts(timestamp as nat),
    {
        timestamp > self.last_render_timestamp && timestamp - self.last_render_timestamp
            > self.min_interval
    }

    /// Takes a tick at `timestamp` and says whether it was accepted. An
    /// accepted tick counts as a render and becomes the time that later ticks
    /// are measured against; a rejected tick changes nothing.
    pub fn tick(&mut self, timestamp: u64) -> (accepted: bool)
        ensures
            accepted == old(self)@.accepts(timestamp as nat),
            final(self)@ == old(self)@.tick(timestamp as nat),
            final(self)@.render_count >= old(self)@.render_count,
            final(self)@.last_render_timestamp >= old(self)@.last_render_timestamp,
    {
        proof {
            use_type_invariant(&*self);
        }
        if self.accepts(timestamp) {
            self.last_render_timestamp = timestamp;
            self.render_count = self.render_count + 1;
            true
        } else {
            false
        }
    }

    /// Takes the text of the interval control, in milliseconds. A text that
    /// names a number above zero becomes the minimum interval; any other text
    /// is dropped and the interval stays.
    pub fn delay_changed(&mut self, text: &str)
        ensures
            final(self)@ == old(self)@.with_interval_text(text@),
    {
        proof {
            use_type_invariant(&*self);
        }
        match parse_interval(text) {
            Some(interval) => {
                self.min_interval = interval;
            },
            None => {},
        }
    }

    /// Switches noise on if it was off, and off if it was on.
    pub fn toggle_noise(&mut self)
        ensures
            final(self)@ == old(self)@.toggled(),
    {
        proof {
            use_type_invariant(&*self);
        }
        self.noise_enabled = !self.noise_enabled;
    }
}

/// What the host is to do after a tick.
#[derive(Clone, Debug, PartialEq, Eq)]
pub struct TickOutcome {
    /// Whether the tick was accepted.
    pub accepted: bool,
    /// The places of the surfaces to redraw, in the order of the redraws.
    pub redraw: Vec<usize>,
    /// Whether the host is to call again at the next display refresh.
    pub rearm: bool,
}

/// The places to redraw after a tick: every surface in the order of the
/// registry where the tick was accepted, none where it was rejected.
pub open spec fn redraw_order(accepted: bool, surfaces: nat) -> Seq<usize> {
    if accepted {
        Seq::new(surfaces, |i: int| i as usize)
    } else {
        Seq::empty()
    }
}

/// Handles the display refresh at `timestamp`.
///
/// An accepted tick is counted, becomes the time that later ticks are
/// measured against, and asks for a redraw of every surface in the order of
/// the registry. A rejected tick changes nothing and asks for no redraw.
/// Either way the outcome asks to be called again at the next refresh.
pub fn on_tick(state: &mut RenderState, surfaces: &SurfaceRegistry, timestamp: u64) -> (outcome:
    TickOutcome)
    ensures
        outcome.accepted == old(state)@.accepts(timestamp as nat),
        final(state)@ == old(state)@.tick(timestamp as nat),
        outcome.redraw@ == redraw_order(outcome.accepted, surfaces@.len()),
        outcome.rearm,
{
    let accepted = state.tick(timestamp);
    let count: usize = surfaces.count();
    let redraw: Vec<usize> = if accepted {
        let place = |index: usize, handle: SurfaceHandle| -> (r: usize)
            ensures
                r == index,
            { index };
        surfaces.for_each(place)
    } else {
        Vec::new()
    };
    proof {
        if accepted {
            assert forall|k: int| 0 <= k < count implies redraw@[k] == k as usize by {
                let index = k as usize;
                assert(redraw@[index as int] == index);
            }
        }
        assert(redraw@ =~= redraw_order(accepted, surfaces@.len()));
    }
    TickOutcome { accepted, redraw, rearm: true }
}

/// An interval that was set from text decides every tick as the number that
/// the text names would, taken exactly: on a clock that counts whole
/// microseconds in a `u64`, a tick is accepted where the time since the last
/// accepted tick is longer than that number, and against infinity never.
pub proof fn lemma_interval_from_text_is_exact(
    state: RenderStateView,
    text: Seq<char>,
    timestamp: nat,
)
    requires
        interval_of_text(text) is Some,
        timestamp <= u64::MAX,
    ensures
        state.with_interval_text(text).accepts(timestamp) <==> {
            &&& !is_infinity(unsigned_part(text))
            &&& timestamp >= state.last_render_timestamp
            &&& span_exceeds(
                (timestamp - state.last_render_timestamp) as nat,
                unsigned_part(text),
            )
        },
{
    let body = unsigned_part(text);
    if !is_infinity(body) && timestamp >= state.last_render_timestamp {
        lemma_cut_off_loses_nothing(body, (timestamp - state.last_render_timestamp) as nat);
    }
}

/// The ticks leave the minimum interval and the noise switch alone.
pub proof fn lemma_run_keeps_settings(state: RenderStateView, timestamps: Seq<nat>)
    ensures
        state.run(timestamps).min_interval == state.min_interval,
        state.run(timestamps).noise_enabled == state.noise_enabled,
    decreases timestamps.len(),
{
    if timestamps.len() > 0 {
        lemma_run_keeps_settings(state, timestamps.drop_last());
    }
}

/// The render count goes up by exactly one for every accepted tick: after
/// the ticks at `timestamps` it is the count before them plus the number of
/// ticks among them that were accepted. The last render time never goes back.
pub proof fn lemma_run_counts_accepted(state: RenderStateView, timestamps: Seq<nat>)
    ensures
        state.run(timestamps).render_count == state.render_count + state.accepted_count(
            timestamps,
            timestamps.len() as int,
        ),
        state.run(timestamps).last_render_timestamp >= state.last_render_timestamp,
    decreases timestamps.len(),
{
    if timestamps.len() > 0 {
        let n = timestamps.len() as int;
        let front = timestamps.drop_last();
        lemma_run_counts_accepted(state, front);
        assert(timestamps.take(n - 1) =~= front);
        assert(front.take(n - 1) =~= front);
        lemma_accepted_count_prefix(state, timestamps, front, n - 1);
    }
}

/// Whether a tick is accepted depends on the ticks before it alone: two
/// sequences that agree on their first `n` ticks have the same number of
/// accepted ticks among those.
proof fn lemma_accepted_count_prefix(
    state: RenderStateView,
    a: Seq<nat>,
    b: Seq<nat>,
    n: int,
)
    requires
        0 <= n <= a.len(),
        n <= b.len(),
        a.take(n) == b.take(n),
    ensures
        state.accepted_count(a, n) == state.accepted_count(b, n),
    decreases n,
{
    if n > 0 {
        assert(a.take(n - 1) =~= a.take(n).take(n - 1));
        assert(b.take(n - 1) =~= b.take(n).take(n - 1));
        lemma_accepted_count_prefix(state, a, b, n - 1);
        assert(a[n - 1] == a.take(n)[n - 1]);
        assert(b[n - 1] == b.take(n)[n - 1]);
    }
}

/// A tick is measured against the last accepted tick, not against the tick
/// just before it: the time that tick number `i` is held against is the time
/// of the last tick accepted before it.
pub proof fn lemma_measured_against_last_accepted(
    state: RenderStateView,
    timestamps: Seq<nat>,
    j: int,
    i: int,
)
    requires
        i <= timestamps.len(),
        state.is_last_accepted_before(timestamps, j, i),
    ensures
        state.run(timestamps.take(i)).last_render_timestamp == timestamps[j],
    decreases i,
{
    assert(timestamps.take(i).drop_last() =~= timestamps.take(i - 1));
    assert(timestamps.take(i).last() == timestamps[i - 1]);
    if j < i - 1 {
        assert(!state.accepted_at(timestamps, i - 1));
        lemma_measured_against_last_accepted(state, timestamps, j, i - 1);
    }
}

/// Before any tick was accepted, ticks are measured against the time the
/// state started with.
pub proof fn lemma_measured_against_start(state: RenderStateView, timestamps: Seq<nat>, i: int)
    requires
        0 <= i <= timestamps.len(),
        forall|k: int| 0 <= k < i ==> !#[trigger] state.accepted_at(timestamps, k),
    ensures
        state.run(timestamps.take(i)) == state,
    decreases i,
{
    if i > 0 {
        assert(timestamps.take(i).drop_last() =~= timestamps.take(i - 1));
        assert(timestamps.take(i).last() == timestamps[i - 1]);
        assert(!state.accepted_at(timestamps, i - 1));
        lemma_measured_against_start(state, timestamps, i - 1);
    } else {
        assert(timestamps.take(0) =~= Seq::<nat>::empty());
    }
}

/// Where the ticks come at rising times, any two accepted ticks lie more
/// than the minimum interval apart.
pub proof fn lemma_accepted_ticks_are_spaced(
    state: RenderStateView,
    timestamps: Seq<nat>,
    i: int,
    j: int,
)
    requires
        strictly_increasing(timestamps),
        0 <= i < j < timestamps.len(),
        state.accepted_at(timestamps, i),
        state.accepted_at(timestamps, j),
    ensures
        timestamps[j] - timestamps[i] > state.min_interval,
{
    lemma_baseline_after_accepted(state, timestamps, i, j);
    lemma_run_keeps_settings(state, timestamps.take(j));
}

/// Where the ticks come at rising times, a tick that follows an accepted
/// tick is measured against that tick's time or a later one.
proof fn lemma_baseline_after_accepted(
    state: RenderStateView,
    timestamps: Seq<nat>,
    i: int,
    j: int,
)
    requires
        strictly_increasing(timestamps),
        0 <= i < j <= timestamps.len(),
        state.accepted_at(timestamps, i),
    ensures
        state.run(timestamps.take(j)).last_render_timestamp >= timestamps[i],
    decreases j,
{
    assert(timestamps.take(j).drop_last() =~= timestamps.take(j - 1));
    assert(timestamps.take(j).last() == timestamps[j - 1]);
    if j - 1 > i {
        lemma_baseline_after_accepted(state, timestamps, i, j - 1);
    }
}

} // verus!
