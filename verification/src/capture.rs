//! The capture session: what has been recorded, whether the logger is
//! running, paused or idle, and the session clock that leaves paused time out.
//!
//! Clock readings are passed in as milliseconds of a monotonic clock; the
//! caller reads the clock, talks to the port and runs the sampling thread.

use vstd::prelude::*;

verus! {

/// Channel names, in channel order.
pub fn channel_name(ch: usize) -> (name: &'static str)
    requires
        ch < 4,
    ensures
        name@ == spec_channel_name(ch as int),
{
    if ch == 0 {
        "T1"
    } else if ch == 1 {
        "T2"
    } else if ch == 2 {
        "T3"
    } else {
        "T4"
    }
}

/// The name of channel `ch` (0 to 3).
pub open spec fn spec_channel_name(ch: int) -> Seq<char> {
    if ch == 0 {
        "T1"@
    } else if ch == 1 {
        "T2"@
    } else if ch == 2 {
        "T3"@
    } else {
        "T4"@
    }
}

/// One frame of readings: when it was taken (milliseconds since the sampling
/// began) and the four channel temperatures in tenths of a degree Celsius,
/// `None` where the channel had no probe.
#[derive(Clone, Copy, Debug)]
pub struct Sample {
    pub elapsed: u64,
    pub temps: [Option<i16>; 4],
}

/// The readings that channel `ch` delivered, oldest first; frames in which
/// the channel had no probe contribute nothing.
pub open spec fn channel_readings(samples: Seq<Sample>, ch: int) -> Seq<i16>
    decreases samples.len(),
{
    if samples.len() == 0 {
        Seq::empty()
    } else {
        let rest = channel_readings(samples.drop_last(), ch);
        match samples.last().temps@[ch] {
            Some(v) => rest.push(v),
            None => rest,
        }
    }
}

/// The smallest reading of a non-empty sequence.
pub open spec fn seq_min(r: Seq<i16>) -> i16
    decreases r.len(),
{
    if r.len() <= 1 {
        r[0]
    } else {
        let m = seq_min(r.drop_last());
        if r.last() < m {
            r.last()
        } else {
            m
        }
    }
}

/// The largest reading of a non-empty sequence.
pub open spec fn seq_max(r: Seq<i16>) -> i16
    decreases r.len(),
{
    if r.len() <= 1 {
        r[0]
    } else {
        let m = seq_max(r.drop_last());
        if r.last() > m {
            r.last()
        } else {
            m
        }
    }
}

/// The latest, lowest and highest reading of a channel, `None` where the
/// channel has no reading at all.
#[derive(Clone, Copy, Debug)]
pub struct ChannelStats {
    pub latest: Option<i16>,
    pub min: Option<i16>,
    pub max: Option<i16>,
}

/// The statistics that [`ChannelStats::compute`] gives for the readings `r`.
pub open spec fn stats_of(r: Seq<i16>) -> ChannelStats {
    if r.len() == 0 {
        ChannelStats { latest: None, min: None, max: None }
    } else {
        ChannelStats { latest: Some(r.last()), min: Some(seq_min(r)), max: Some(seq_max(r)) }
    }
}

impl Default for ChannelStats {
    fn default() -> (st: ChannelStats)
        ensures
            st == stats_of(Seq::empty()),
    {
        ChannelStats { latest: None, min: None, max: None }
    }
}

impl ChannelStats {
    /// The latest, lowest and highest reading of channel `ch` over `samples`.
    /// With no samples every channel number is accepted and nothing is read.
    pub fn compute(samples: &[Sample], ch: usize) -> (st: ChannelStats)
        requires
            ch < 4 || samples@.len() == 0,
        ensures
            st == stats_of(channel_readings(samples@, ch as int)),
    {
        let mut latest: Option<i16> = None;
        let mut min: Option<i16> = None;
        let mut max: Option<i16> = None;
        let mut i: usize = 0;
        assert(samples@.subrange(0, 0) =~= Seq::<Sample>::empty());
        while i < samples.len()
            invariant
                i <= samples@.len(),
                ch < 4 || samples@.len() == 0,
                (ChannelStats { latest, min, max }) == stats_of(
                    channel_readings(samples@.subrange(0, i as int), ch as int),
                ),
            decreases samples@.len() - i,
        {
            let ghost before = channel_readings(samples@.subrange(0, i as int), ch as int);
            assert(samples@.subrange(0, i + 1).drop_last() =~= samples@.subrange(0, i as int));
            assert(samples@.subrange(0, i + 1).last() == samples@[i as int]);
            match samples[i].temps[ch] {
                Some(v) => {
                    latest = Some(v);
                    min = match min {
                        Some(m) => if v < m { Some(v) } else { Some(m) },
                        None => Some(v),
                    };
                    max = match max {
                        Some(m) => if v > m { Some(v) } else { Some(m) },
                        None => Some(v),
                    };
                    assert(before.push(v).drop_last() =~= before);
                },
                None => {},
            }
            i = i + 1;
        }
        assert(samples@.subrange(0, samples@.len() as int) =~= samples@);
        ChannelStats { latest, min, max }
    }
}

/// A labelled event, stamped with the session clock in milliseconds.
#[derive(Debug)]
pub struct Marker {
    pub elapsed: u64,
    pub label: String,
}

impl View for Marker {
    type V = (u64, Seq<char>);

    open spec fn view(&self) -> (u64, Seq<char>) {
        (self.elapsed, self.label@)
    }
}

impl Marker {
    /// A copy of the marker.
    pub fn duplicate(&self) -> (m: Marker)
        ensures
            m@ == self@,
    {
        Marker { elapsed: self.elapsed, label: self.label.clone() }
    }
}

/// Whether the logger is capturing.
#[derive(Clone, Copy, Debug, PartialEq, Eq, Structural)]
pub enum State {
    Idle,
    Running,
    Paused,
}

/// What the sampling thread does next.
#[derive(Clone, Copy, Debug, PartialEq, Eq, Structural)]
pub enum WorkerStep {
    /// The capture was stopped: close the port and end the thread.
    Exit,
    /// The capture is paused: sleep this many milliseconds and look again.
    Wait { ms: u64 },
    /// The capture is running: request and read one frame, record it, then
    /// sleep for the sample interval.
    Read,
}

/// How long the paused sampling thread sleeps between looks at the state.
pub const PAUSE_POLL_MS: u64 = 50;

/// The sampling thread's next step for the session state.
pub fn worker_step(state: State) -> (step: WorkerStep)
    ensures
        step == (match state {
            State::Idle => WorkerStep::Exit,
            State::Paused => WorkerStep::Wait { ms: PAUSE_POLL_MS },
            State::Running => WorkerStep::Read,
        }),
{
    match state {
        State::Idle => WorkerStep::Exit,
        State::Paused => WorkerStep::Wait { ms: PAUSE_POLL_MS },
        State::Running => WorkerStep::Read,
    }
}

/// The abstract content of a capture session.
pub struct CaptureModel {
    /// The recorded samples, oldest first.
    pub samples: Seq<Sample>,
    /// The markers as (session time in ms, label), oldest first.
    pub markers: Seq<(u64, Seq<char>)>,
    pub state: State,
    /// Why the sampling thread gave up, if it did.
    pub error: Option<Seq<char>>,
    /// The clock reading at which the current running stretch began.
    pub run_start: Option<u64>,
    /// Milliseconds of running time banked by earlier pauses.
    pub banked: u64,
}

/// Milliseconds the clock advanced since `start`; nothing before `start`.
pub open spec fn since(start: u64, now: u64) -> nat {
    if now >= start {
        (now - start) as nat
    } else {
        0
    }
}

/// Caps a count at `u64::MAX`.
pub open spec fn cap_u64(n: nat) -> u64 {
    if n > u64::MAX {
        u64::MAX
    } else {
        n as u64
    }
}

/// The session clock at clock reading `now`: banked time plus the current
/// running stretch.
pub open spec fn elapsed_at(m: CaptureModel, now: u64) -> u64 {
    cap_u64(
        (m.banked + match m.run_start {
            Some(s) => since(s, now),
            None => 0nat,
        }) as nat,
    )
}

/// A fresh session, as [`Capture::new`] makes it.
pub open spec fn initial_model() -> CaptureModel {
    CaptureModel {
        samples: Seq::empty(),
        markers: Seq::empty(),
        state: State::Idle,
        error: None,
        run_start: None,
        banked: 0,
    }
}

/// The session after a capture starts at `now`: all earlier data is dropped.
pub open spec fn after_start(m: CaptureModel, now: u64) -> CaptureModel {
    CaptureModel {
        samples: Seq::empty(),
        markers: Seq::empty(),
        state: State::Running,
        error: None,
        run_start: Some(now),
        banked: 0,
    }
}

/// The session after a pause at `now`: the running stretch is banked.
pub open spec fn after_pause(m: CaptureModel, now: u64) -> CaptureModel {
    CaptureModel { state: State::Paused, run_start: None, banked: elapsed_at(m, now), ..m }
}

/// The session after a resume at `now`: a new running stretch begins.
pub open spec fn after_resume(m: CaptureModel, now: u64) -> CaptureModel {
    CaptureModel { state: State::Running, run_start: Some(now), ..m }
}

/// The session after a stop: the data stays, the clock stops running.
pub open spec fn after_stop(m: CaptureModel) -> CaptureModel {
    CaptureModel { state: State::Idle, run_start: None, ..m }
}

/// The session after a marker labelled `label` is set at `now`.
pub open spec fn after_marker(m: CaptureModel, label: Seq<char>, now: u64) -> CaptureModel {
    CaptureModel { markers: m.markers.push((elapsed_at(m, now), label)), ..m }
}

/// The session after the sampling thread recorded the readings `temps` at
/// `now`: the sample is stamped with the session clock, the same clock that
/// stamps markers, so samples and markers share one time axis.
pub open spec fn after_record(m: CaptureModel, temps: [Option<i16>; 4], now: u64) -> CaptureModel {
    CaptureModel { samples: m.samples.push(Sample { elapsed: elapsed_at(m, now), temps }), ..m }
}

/// The clock runs exactly while the capture runs: a running session has a
/// running stretch, a paused one has none.
pub open spec fn clock_consistent(m: CaptureModel) -> bool {
    &&& m.state == State::Running ==> m.run_start is Some
    &&& m.state == State::Paused ==> m.run_start is None
}

/// The message recorded when the port could not be opened.
pub open spec fn open_failure_message(reason: Seq<char>) -> Seq<char> {
    "Failed to open port: "@ + reason
}

/// The session after the sampling thread could not open the port.
pub open spec fn after_open_failure(m: CaptureModel, reason: Seq<char>) -> CaptureModel {
    CaptureModel { error: Some(open_failure_message(reason)), state: State::Idle, ..m }
}

/// The view of an optional string.
pub open spec fn opt_text(s: Option<String>) -> Option<Seq<char>> {
    match s {
        Some(t) => Some(t@),
        None => None,
    }
}

/// Starting a capture drops everything recorded before and sets the session
/// clock running from zero.
pub proof fn lemma_start_begins_afresh(m: CaptureModel, now: u64)
    ensures
        after_start(m, now).samples.len() == 0,
        after_start(m, now).markers.len() == 0,
        after_start(m, now).state == State::Running,
        after_start(m, now).error is None,
        elapsed_at(after_start(m, now), now) == 0,
{
}

/// While paused, the session clock stands still at the time of the pause.
pub proof fn lemma_pause_freezes_clock(m: CaptureModel, paused_at: u64, later: u64)
    ensures
        elapsed_at(after_pause(m, paused_at), later) == elapsed_at(m, paused_at),
{
}

/// After a pause and a resume, the session clock goes on from where the
/// pause left it: the paused stretch is not counted.
pub proof fn lemma_resume_continues_clock(m: CaptureModel, paused_at: u64, resumed_at: u64, now: u64)
    requires
        paused_at <= resumed_at <= now,
    ensures
        elapsed_at(after_resume(after_pause(m, paused_at), resumed_at), now) == cap_u64(
            (elapsed_at(m, paused_at) + (now - resumed_at)) as nat,
        ),
{
}

/// The session clock never runs backwards while the clock it is read from
/// moves forward.
pub proof fn lemma_clock_monotonic(m: CaptureModel, t1: u64, t2: u64)
    requires
        t1 <= t2,
    ensures
        elapsed_at(m, t1) <= elapsed_at(m, t2),
{
}

/// Pausing, resuming and stopping leave the recorded data untouched; stopping
/// in particular keeps the buffer for export.
pub proof fn lemma_transport_keeps_data(m: CaptureModel, now: u64)
    ensures
        after_pause(m, now).samples == m.samples,
        after_pause(m, now).markers == m.markers,
        after_resume(m, now).samples == m.samples,
        after_resume(m, now).markers == m.markers,
        after_stop(m).samples == m.samples,
        after_stop(m).markers == m.markers,
        after_stop(m).state == State::Idle,
{
}

/// A marker is stamped with the session clock at the moment it is set and is
/// appended after the earlier markers, which stay as they were.
pub proof fn lemma_marker_stamped(m: CaptureModel, label: Seq<char>, now: u64)
    ensures
        after_marker(m, label, now).markers.len() == m.markers.len() + 1,
        after_marker(m, label, now).markers.last() == (elapsed_at(m, now), label),
        after_marker(m, label, now).markers.drop_last() == m.markers,
        after_marker(m, label, now).samples == m.samples,
{
    assert(m.markers.push((elapsed_at(m, now), label)).drop_last() =~= m.markers);
}

/// If the markers so far are in time order and none is later than the
/// session clock at `t1`, a marker set at a later clock reading `t2` keeps
/// them in time order.
pub proof fn lemma_markers_stay_ordered(m: CaptureModel, label: Seq<char>, t1: u64, t2: u64)
    requires
        t1 <= t2,
        forall|i: int, j: int|
            0 <= i <= j < m.markers.len() ==> (#[trigger] m.markers[i]).0 <= (#[trigger] m.markers[j]).0,
        forall|i: int| 0 <= i < m.markers.len() ==> (#[trigger] m.markers[i]).0 <= elapsed_at(m, t1),
    ensures
        forall|i: int, j: int|
            0 <= i <= j < after_marker(m, label, t2).markers.len() ==> (#[trigger] after_marker(
                m,
                label,
                t2,
            ).markers[i]).0 <= (#[trigger] after_marker(m, label, t2).markers[j]).0,
{
    lemma_clock_monotonic(m, t1, t2);
}

/// Recording a frame appends exactly one sample, carrying the frame's
/// readings and the session time of the read, after the earlier samples; the
/// capture goes on as before: its state, markers, error and clock stay as
/// they were.
pub proof fn lemma_record_only_appends(m: CaptureModel, temps: [Option<i16>; 4], now: u64, t: u64)
    ensures
        after_record(m, temps, now).samples.len() == m.samples.len() + 1,
        after_record(m, temps, now).samples.drop_last() == m.samples,
        after_record(m, temps, now).samples.last().temps == temps,
        after_record(m, temps, now).samples.last().elapsed == elapsed_at(m, now),
        after_record(m, temps, now).state == m.state,
        after_record(m, temps, now).markers == m.markers,
        after_record(m, temps, now).error == m.error,
        after_record(m, temps, now).run_start == m.run_start,
        after_record(m, temps, now).banked == m.banked,
        elapsed_at(after_record(m, temps, now), t) == elapsed_at(m, t),
{
    assert(after_record(m, temps, now).samples.drop_last() =~= m.samples);
}

/// Setting a marker appends exactly one marker, carrying the label and the
/// session time, after the earlier markers; the capture goes on as before:
/// its state, samples, error and clock stay as they were.
pub proof fn lemma_marker_only_appends(m: CaptureModel, label: Seq<char>, now: u64, t: u64)
    ensures
        after_marker(m, label, now).markers.len() == m.markers.len() + 1,
        after_marker(m, label, now).markers.drop_last() == m.markers,
        after_marker(m, label, now).markers.last().1 == label,
        after_marker(m, label, now).markers.last().0 == elapsed_at(m, now),
        after_marker(m, label, now).state == m.state,
        after_marker(m, label, now).samples == m.samples,
        after_marker(m, label, now).error == m.error,
        after_marker(m, label, now).run_start == m.run_start,
        after_marker(m, label, now).banked == m.banked,
        elapsed_at(after_marker(m, label, now), t) == elapsed_at(m, t),
{
    assert(after_marker(m, label, now).markers.drop_last() =~= m.markers);
}

/// Each transport operation sets the state it is named for and touches
/// nothing but the state and the clock: the samples, markers and error stay.
/// Resuming and stopping keep the banked running time; pausing banks the
/// session time reached; resuming restarts the clock at the banked time.
pub proof fn lemma_transport_effects(m: CaptureModel, now: u64)
    ensures
        after_pause(m, now).state == State::Paused,
        after_pause(m, now).error == m.error,
        after_pause(m, now).banked == elapsed_at(m, now),
        after_resume(m, now).state == State::Running,
        after_resume(m, now).error == m.error,
        after_resume(m, now).banked == m.banked,
        elapsed_at(after_resume(m, now), now) == m.banked,
        after_stop(m).state == State::Idle,
        after_stop(m).error == m.error,
        after_stop(m).banked == m.banked,
        after_stop(m).run_start is None,
{
}

/// When the port cannot be opened the capture ends with the reason kept as
/// the error, prefixed by `Failed to open port: `; the data stays.
pub proof fn lemma_open_failure_effects(m: CaptureModel, reason: Seq<char>)
    ensures
        after_open_failure(m, reason).state == State::Idle,
        after_open_failure(m, reason).error == Some("Failed to open port: "@ + reason),
        after_open_failure(m, reason).samples == m.samples,
        after_open_failure(m, reason).markers == m.markers,
        after_open_failure(m, reason).banked == m.banked,
{
}

/// A marker and a sample taken at the same clock reading carry the same
/// session time, in either order, and neither changes the session clock:
/// markers and samples lie on one time axis.
pub proof fn lemma_one_time_axis(
    m: CaptureModel,
    label: Seq<char>,
    temps: [Option<i16>; 4],
    now: u64,
    t: u64,
)
    ensures
        after_marker(m, label, now).markers.last().0 == after_record(m, temps, now).samples.last().elapsed,
        after_record(after_marker(m, label, now), temps, now).samples.last().elapsed
            == after_marker(after_record(m, temps, now), label, now).markers.last().0,
        elapsed_at(after_marker(m, label, now), t) == elapsed_at(m, t),
        elapsed_at(after_record(m, temps, now), t) == elapsed_at(m, t),
{
}

/// If the samples so far are in time order and none is later than the
/// session clock at `t1`, a sample recorded at a later clock reading `t2`
/// keeps them in time order.
pub proof fn lemma_samples_stay_ordered(m: CaptureModel, temps: [Option<i16>; 4], t1: u64, t2: u64)
    requires
        t1 <= t2,
        forall|i: int, j: int|
            0 <= i <= j < m.samples.len() ==> (#[trigger] m.samples[i]).elapsed <= (
            #[trigger] m.samples[j]).elapsed,
        forall|i: int| 0 <= i < m.samples.len() ==> (#[trigger] m.samples[i]).elapsed <= elapsed_at(m, t1),
    ensures
        forall|i: int, j: int|
            0 <= i <= j < after_record(m, temps, t2).samples.len() ==> (#[trigger] after_record(
                m,
                temps,
                t2,
            ).samples[i]).elapsed <= (#[trigger] after_record(m, temps, t2).samples[j]).elapsed,
{
    lemma_clock_monotonic(m, t1, t2);
}

/// A fresh session has a consistent clock, and every operation keeps it
/// consistent.
pub proof fn lemma_clock_consistency_kept(
    m: CaptureModel,
    now: u64,
    label: Seq<char>,
    temps: [Option<i16>; 4],
    reason: Seq<char>,
)
    requires
        clock_consistent(m),
    ensures
        clock_consistent(initial_model()),
        clock_consistent(after_start(m, now)),
        clock_consistent(after_pause(m, now)),
        clock_consistent(after_resume(m, now)),
        clock_consistent(after_stop(m)),
        clock_consistent(after_marker(m, label, now)),
        clock_consistent(after_record(m, temps, now)),
        clock_consistent(after_open_failure(m, reason)),
{
}

/// In a session with a consistent clock, whatever brought it into the
/// paused state, the session clock stands still while it is paused.
pub proof fn lemma_paused_clock_stands_still(m: CaptureModel, t1: u64, t2: u64)
    requires
        clock_consistent(m),
        m.state == State::Paused,
    ensures
        elapsed_at(m, t1) == elapsed_at(m, t2),
        elapsed_at(m, t1) == m.banked,
{
}

/// A channel's readings are those of the earlier frames, followed by the new
/// frame's reading when the channel had a probe; an open circuit adds nothing.
pub proof fn lemma_readings_extend(samples: Seq<Sample>, s: Sample, ch: int)
    ensures
        channel_readings(samples.push(s), ch) == (match s.temps@[ch] {
            Some(v) => channel_readings(samples, ch).push(v),
            None => channel_readings(samples, ch),
        }),
{
    assert(samples.push(s).drop_last() =~= samples);
}

/// The lowest reading is no higher than any reading and is one of them.
pub proof fn lemma_min_bounds(r: Seq<i16>)
    requires
        r.len() > 0,
    ensures
        forall|i: int| 0 <= i < r.len() ==> seq_min(r) <= #[trigger] r[i],
        r.contains(seq_min(r)),
    decreases r.len(),
{
    if r.len() > 1 {
        lemma_min_bounds(r.drop_last());
        let m = seq_min(r.drop_last());
        assert forall|i: int| 0 <= i < r.len() implies seq_min(r) <= #[trigger] r[i] by {
            if i < r.len() - 1 {
                assert(r[i] == r.drop_last()[i]);
            }
        }
        if r.last() < m {
            assert(r[r.len() - 1] == seq_min(r));
        } else {
            let k = choose|k: int| 0 <= k < r.drop_last().len() && r.drop_last()[k] == m;
            assert(r[k] == m);
        }
    } else {
        assert(r[0] == seq_min(r));
    }
}

/// The highest reading is no lower than any reading and is one of them.
pub proof fn lemma_max_bounds(r: Seq<i16>)
    requires
        r.len() > 0,
    ensures
        forall|i: int| 0 <= i < r.len() ==> #[trigger] r[i] <= seq_max(r),
        r.contains(seq_max(r)),
    decreases r.len(),
{
    if r.len() > 1 {
        lemma_max_bounds(r.drop_last());
        let m = seq_max(r.drop_last());
        assert forall|i: int| 0 <= i < r.len() implies #[trigger] r[i] <= seq_max(r) by {
            if i < r.len() - 1 {
                assert(r[i] == r.drop_last()[i]);
            }
        }
        if r.last() > m {
            assert(r[r.len() - 1] == seq_max(r));
        } else {
            let k = choose|k: int| 0 <= k < r.drop_last().len() && r.drop_last()[k] == m;
            assert(r[k] == m);
        }
    } else {
        assert(r[0] == seq_max(r));
    }
}

/// A channel's statistics: present exactly when the channel has a reading;
/// then the latest reading is the last one, the lowest and highest are
/// readings of the channel, and every reading, the latest among them, lies
/// between them.
pub proof fn lemma_stats_consistent(samples: Seq<Sample>, ch: int)
    ensures
        ({
            let r = channel_readings(samples, ch);
            let st = stats_of(r);
            &&& (st.latest is Some <==> r.len() > 0)
            &&& (st.min is Some <==> r.len() > 0)
            &&& (st.max is Some <==> r.len() > 0)
            &&& r.len() > 0 ==> {
                &&& st.latest == Some(r.last())
                &&& r.contains(st.min.unwrap())
                &&& r.contains(st.max.unwrap())
                &&& st.min.unwrap() <= st.latest.unwrap() <= st.max.unwrap()
                &&& forall|i: int|
                    0 <= i < r.len() ==> st.min.unwrap() <= #[trigger] r[i] <= st.max.unwrap()
            }
        }),
{
    let r = channel_readings(samples, ch);
    if r.len() > 0 {
        lemma_min_bounds(r);
        lemma_max_bounds(r);
        assert(r.last() == r[r.len() - 1]);
    }
}

/// Adding a frame updates a channel's statistics step by step: an open
/// circuit changes nothing; a reading `x` becomes the latest and widens the
/// low/high range to take it in.
pub proof fn lemma_stats_extend(samples: Seq<Sample>, s: Sample, ch: int)
    ensures
        stats_of(channel_readings(samples.push(s), ch)) == (match s.temps@[ch] {
            None => stats_of(channel_readings(samples, ch)),
            Some(x) => {
                let old = stats_of(channel_readings(samples, ch));
                ChannelStats {
                    latest: Some(x),
                    min: Some(
                        match old.min {
                            Some(m) => if x < m { x } else { m },
                            None => x,
                        },
                    ),
                    max: Some(
                        match old.max {
                            Some(m) => if x > m { x } else { m },
                            None => x,
                        },
                    ),
                }
            },
        }),
{
    lemma_readings_extend(samples, s, ch);
    let r = channel_readings(samples, ch);
    if let Some(x) = s.temps@[ch] {
        assert(r.push(x).drop_last() =~= r);
        assert(r.push(x).last() == x);
        if r.len() == 0 {
            assert(r.push(x).len() == 1);
            assert(r.push(x)[0] == x);
        }
    }
}

/// A value is among a channel's readings exactly when some frame carried it
/// on that channel.
pub proof fn lemma_readings_members(samples: Seq<Sample>, ch: int, v: i16)
    ensures
        channel_readings(samples, ch).contains(v) <==> exists|i: int|
            0 <= i < samples.len() && (#[trigger] samples[i]).temps@[ch] == Some(v),
    decreases samples.len(),
{
    if samples.len() > 0 {
        let init = samples.drop_last();
        lemma_readings_members(init, ch, v);
        let r = channel_readings(init, ch);
        let last = samples.len() - 1;
        if channel_readings(samples, ch).contains(v) {
            match samples.last().temps@[ch] {
                Some(x) => {
                    let k = choose|k: int| 0 <= k < r.push(x).len() && r.push(x)[k] == v;
                    if k < r.len() {
                        assert(r[k] == v);
                        let i = choose|i: int| 0 <= i < init.len() && (#[trigger] init[i]).temps@[ch] == Some(v);
                        assert(samples[i] == init[i]);
                    } else {
                        assert(samples[last] == samples.last());
                    }
                },
                None => {
                    let i = choose|i: int| 0 <= i < init.len() && (#[trigger] init[i]).temps@[ch] == Some(v);
                    assert(samples[i] == init[i]);
                },
            }
        }
        if exists|i: int| 0 <= i < samples.len() && (#[trigger] samples[i]).temps@[ch] == Some(v) {
            let i = choose|i: int| 0 <= i < samples.len() && (#[trigger] samples[i]).temps@[ch] == Some(v);
            if i < last {
                assert(init[i] == samples[i]);
                let k = choose|k: int| 0 <= k < r.len() && r[k] == v;
                match samples.last().temps@[ch] {
                    Some(x) => {
                        assert(r.push(x)[k] == v);
                    },
                    None => {},
                }
            } else {
                assert(samples.last().temps@[ch] == Some(v));
                assert(r.push(v)[r.len() as int] == v);
            }
        }
    }
}

/// The lowest and highest readings of a channel depend only on which frames
/// were recorded, not on their order or on repeats.
pub proof fn lemma_min_max_order_free(a: Seq<Sample>, b: Seq<Sample>, ch: int)
    requires
        forall|s: Sample| a.contains(s) <==> b.contains(s),
    ensures
        stats_of(channel_readings(a, ch)).min == stats_of(channel_readings(b, ch)).min,
        stats_of(channel_readings(a, ch)).max == stats_of(channel_readings(b, ch)).max,
{
    let ra = channel_readings(a, ch);
    let rb = channel_readings(b, ch);
    // every reading of one is a reading of the other
    assert forall|v: i16| ra.contains(v) implies rb.contains(v) by {
        lemma_readings_members(a, ch, v);
        lemma_readings_members(b, ch, v);
        let i = choose|i: int| 0 <= i < a.len() && (#[trigger] a[i]).temps@[ch] == Some(v);
        assert(a.contains(a[i]));
        let j = choose|j: int| 0 <= j < b.len() && b[j] == a[i];
        assert(b[j].temps@[ch] == Some(v));
    }
    assert forall|v: i16| rb.contains(v) implies ra.contains(v) by {
        lemma_readings_members(a, ch, v);
        lemma_readings_members(b, ch, v);
        let i = choose|i: int| 0 <= i < b.len() && (#[trigger] b[i]).temps@[ch] == Some(v);
        assert(b.contains(b[i]));
        let j = choose|j: int| 0 <= j < a.len() && a[j] == b[i];
        assert(a[j].temps@[ch] == Some(v));
    }
    if ra.len() > 0 {
        lemma_min_bounds(ra);
        lemma_max_bounds(ra);
        assert(rb.contains(seq_min(ra)));
        assert(rb.len() > 0);
    }
    if rb.len() > 0 {
        lemma_min_bounds(rb);
        lemma_max_bounds(rb);
        assert(ra.contains(seq_min(rb)));
        assert(ra.len() > 0);
    }
    if ra.len() > 0 {
        assert(rb.contains(seq_min(ra)));
        let k = choose|k: int| 0 <= k < rb.len() && rb[k] == seq_min(ra);
        let l = choose|l: int| 0 <= l < ra.len() && ra[l] == seq_min(rb);
        assert(seq_min(rb) <= rb[k]);
        assert(seq_min(ra) <= ra[l]);
        let k2 = choose|k: int| 0 <= k < rb.len() && rb[k] == seq_max(ra);
        let l2 = choose|l: int| 0 <= l < ra.len() && ra[l] == seq_max(rb);
        assert(rb[k2] <= seq_max(rb));
        assert(ra[l2] <= seq_max(ra));
    }
}

/// Reordering the recorded frames leaves every channel's lowest and highest
/// reading unchanged.
pub proof fn lemma_min_max_permutation(a: Seq<Sample>, b: Seq<Sample>, ch: int)
    requires
        a.to_multiset() == b.to_multiset(),
    ensures
        stats_of(channel_readings(a, ch)).min == stats_of(channel_readings(b, ch)).min,
        stats_of(channel_readings(a, ch)).max == stats_of(channel_readings(b, ch)).max,
{
    a.to_multiset_ensures();
    b.to_multiset_ensures();
    assert forall|s: Sample| a.contains(s) <==> b.contains(s) by {
        assert(a.contains(s) <==> a.to_multiset().count(s) > 0);
        assert(b.contains(s) <==> b.to_multiset().count(s) > 0);
    }
    lemma_min_max_order_free(a, b, ch);
}

/// The state of a session together with its running stretch. A running
/// session always has one and a paused session never has, so every session's
/// clock is consistent by construction.
enum Phase {
    /// Not capturing; a stretch may be left over when the port could not be
    /// opened.
    Idle { leftover: Option<u64> },
    /// Capturing since the clock reading `start`.
    Running { start: u64 },
    /// Paused; the clock stands still.
    Paused,
}

impl Phase {
    spec fn state(self) -> State {
        match self {
            Phase::Idle { .. } => State::Idle,
            Phase::Running { .. } => State::Running,
            Phase::Paused => State::Paused,
        }
    }

    spec fn run_start(self) -> Option<u64> {
        match self {
            Phase::Idle { leftover } => leftover,
            Phase::Running { start } => Some(start),
            Phase::Paused => None,
        }
    }
}

/// A capture session.
pub struct Capture {
    samples: Vec<Sample>,
    markers: Vec<Marker>,
    phase: Phase,
    error: Option<String>,
    elapsed_at_pause: u64,
}

impl View for Capture {
    type V = CaptureModel;

    closed spec fn view(&self) -> CaptureModel {
        CaptureModel {
            samples: self.samples@,
            markers: self.markers@.map_values(|m: Marker| m@),
            state: self.phase.state(),
            error: opt_text(self.error),
            run_start: self.phase.run_start(),
            banked: self.elapsed_at_pause,
        }
    }
}

/// Every session has a consistent clock: it runs exactly while the capture
/// runs. So the session clock never runs backwards, and while the session is
/// paused it stands still at the running time banked so far, whatever series
/// of operations led there.
pub proof fn lemma_session_clock(c: &Capture, t1: u64, t2: u64)
    ensures
        clock_consistent(c@),
        t1 <= t2 ==> elapsed_at(c@, t1) <= elapsed_at(c@, t2),
        c@.state == State::Paused ==> elapsed_at(c@, t1) == elapsed_at(c@, t2),
        c@.state == State::Paused ==> elapsed_at(c@, t1) == c@.banked,
{
    if t1 <= t2 {
        lemma_clock_monotonic(c@, t1, t2);
    }
}

impl Capture {
    /// An idle session with no data.
    pub fn new() -> (c: Capture)
        ensures
            c@ == initial_model(),
            clock_consistent(c@),
    {
        let c = Capture {
            samples: Vec::new(),
            markers: Vec::new(),
            phase: Phase::Idle { leftover: None },
            error: None,
            elapsed_at_pause: 0,
        };
        assert(c@.markers =~= Seq::<(u64, Seq<char>)>::empty());
        c
    }

    /// The session state.
    pub fn state(&self) -> (s: State)
        ensures
            s == self@.state,
            clock_consistent(self@),
    {
        match self.phase {
            Phase::Idle { .. } => State::Idle,
            Phase::Running { .. } => State::Running,
            Phase::Paused => State::Paused,
        }
    }

    /// Why the sampling thread gave up, if it did.
    pub fn error(&self) -> (e: Option<String>)
        ensures
            opt_text(e) == self@.error,
    {
        match &self.error {
            Some(s) => Some(s.clone()),
            None => None,
        }
    }

    /// The session clock in milliseconds at clock reading `now`: running time
    /// only, paused stretches left out.
    pub fn elapsed(&self, now: u64) -> (t: u64)
        ensures
            t == elapsed_at(self@, now),
            clock_consistent(self@),
            self@.state == State::Paused ==> t == self@.banked,
    {
        let running: u64 = match self.phase {
            Phase::Idle { leftover: Some(s) } => now.saturating_sub(s),
            Phase::Running { start } => now.saturating_sub(start),
            _ => 0,
        };
        self.elapsed_at_pause.saturating_add(running)
    }

    /// Copies of the recorded samples and markers.
    pub fn snapshot(&self) -> (res: (Vec<Sample>, Vec<Marker>))
        ensures
            res.0@ == self@.samples,
            res.1@.map_values(|m: Marker| m@) == self@.markers,
    {
        let mut samples: Vec<Sample> = Vec::new();
        let mut i: usize = 0;
        while i < self.samples.len()
            invariant
                i <= self.samples@.len(),
                samples@ == self.samples@.subrange(0, i as int),
            decreases self.samples@.len() - i,
        {
            samples.push(self.samples[i]);
            i = i + 1;
            assert(samples@ =~= self.samples@.subrange(0, i as int));
        }
        let mut markers: Vec<Marker> = Vec::new();
        let mut j: usize = 0;
        while j < self.markers.len()
            invariant
                j <= self.markers@.len(),
                markers@.len() == j,
                forall|k: int| 0 <= k < j ==> (#[trigger] markers@[k])@ == self.markers@[k]@,
            decreases self.markers@.len() - j,
        {
            markers.push(self.markers[j].duplicate());
            j = j + 1;
        }
        assert(samples@ =~= self.samples@);
        assert(markers@.map_values(|m: Marker| m@) =~= self@.markers);
        (samples, markers)
    }

    /// Begins a new capture at clock reading `now`, dropping earlier data.
    pub fn start(&mut self, now: u64)
        ensures
            final(self)@ == after_start(old(self)@, now),
    {
        self.samples.clear();
        self.markers.clear();
        self.error = None;
        self.phase = Phase::Running { start: now };
        self.elapsed_at_pause = 0;
        assert(self@.markers =~= Seq::<(u64, Seq<char>)>::empty());
    }

    /// Records the readings of a frame read at clock reading `now`, stamped
    /// with the session clock.
    pub fn record(&mut self, temps: [Option<i16>; 4], now: u64)
        ensures
            final(self)@ == after_record(old(self)@, temps, now),
    {
        let elapsed = self.elapsed(now);
        let sample = Sample { elapsed, temps };
        self.samples.push(sample);
        assert(self@.samples =~= old(self)@.samples.push(sample));
    }

    /// Records that the port could not be opened, and ends the capture.
    pub fn fail_open(&mut self, reason: &str)
        ensures
            final(self)@ == after_open_failure(old(self)@, reason@),
    {
        let mut msg = String::from_str("Failed to open port: ");
        msg.append(reason);
        self.error = Some(msg);
        let start = match self.phase {
            Phase::Idle { leftover } => leftover,
            Phase::Running { start } => Some(start),
            Phase::Paused => None,
        };
        self.phase = Phase::Idle { leftover: start };
    }

    /// Pauses the capture at clock reading `now`, banking the running time.
    pub fn pause(&mut self, now: u64)
        ensures
            final(self)@ == after_pause(old(self)@, now),
    {
        let t = self.elapsed(now);
        self.phase = Phase::Paused;
        self.elapsed_at_pause = t;
    }

    /// Resumes the capture at clock reading `now`.
    pub fn resume(&mut self, now: u64)
        ensures
            final(self)@ == after_resume(old(self)@, now),
    {
        self.phase = Phase::Running { start: now };
    }

    /// Ends the capture; the recorded data stays.
    pub fn stop(&mut self)
        ensures
            final(self)@ == after_stop(old(self)@),
    {
        self.phase = Phase::Idle { leftover: None };
    }

    /// Sets a marker labelled `label` at the session time of clock reading `now`.
    pub fn add_marker(&mut self, label: String, now: u64)
        ensures
            final(self)@ == after_marker(old(self)@, label@, now),
    {
        let elapsed = self.elapsed(now);
        let ghost lv = label@;
        self.markers.push(Marker { elapsed, label });
        assert(self@.markers =~= old(self)@.markers.push((elapsed, lv)));
    }
}

} // verus!
