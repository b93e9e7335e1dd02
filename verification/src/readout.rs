//! What the logger's window shows, worked out from the session: the channel
//! readouts, the session clock and which controls are live.

use vstd::prelude::*;
use crate::capture::{channel_readings, seq_max, seq_min, stats_of, ChannelStats, Sample, State};
use crate::export::is_digit;
use crate::text::{
    decimal_text, digit_text, digits_value, lemma_decimal_text_reads_back, lemma_digit_text_value,
    push_decimal, push_tenths, push_two_digits, tenths_text, two_digit_text,
};

verus! {

/// The session clock as minutes and seconds, `MM:SS`; the minutes take more
/// digits once they pass 99.
pub open spec fn clock_text(ms: nat) -> Seq<char> {
    two_digit_text(ms / 60000) + ":"@ + two_digit_text((ms / 1000) % 60)
}

/// Renders the session clock (milliseconds) as `MM:SS`.
pub fn format_clock(ms: u64) -> (s: String)
    ensures
        s@ == clock_text(ms as nat),
{
    let mut s = String::new();
    push_two_digits(&mut s, ms / 60000);
    s.append(":");
    push_two_digits(&mut s, (ms / 1000) % 60);
    s
}

/// The large readout of a channel: the latest temperature, or a dash when
/// the channel has no reading.
pub open spec fn reading_text(latest: Option<i16>) -> Seq<char> {
    match latest {
        Some(v) => tenths_text(v as int) + " °C"@,
        None => "—"@,
    }
}

/// Renders the large readout of a channel.
pub fn format_reading(latest: Option<i16>) -> (s: String)
    ensures
        s@ == reading_text(latest),
{
    match latest {
        Some(v) => {
            let mut s = String::new();
            push_tenths(&mut s, v);
            s.append(" °C");
            s
        },
        None => String::from_str("—"),
    }
}

/// The low/high line under a channel readout, shown only while the channel
/// has a reading.
pub open spec fn range_text(st: ChannelStats) -> Option<Seq<char>> {
    match (st.latest, st.min, st.max) {
        (Some(_), Some(lo), Some(hi)) => Some(
            "↓"@ + tenths_text(lo as int) + "  ↑"@ + tenths_text(hi as int),
        ),
        _ => None,
    }
}

/// Renders the low/high line of a channel readout, if it is shown.
pub fn format_range(st: &ChannelStats) -> (s: Option<String>)
    ensures
        match s {
            Some(t) => range_text(*st) == Some(t@),
            None => range_text(*st) is None,
        },
{
    match (st.latest, st.min, st.max) {
        (Some(_), Some(lo), Some(hi)) => {
            let mut s = String::from_str("↓");
            push_tenths(&mut s, lo);
            s.append("  ↑");
            push_tenths(&mut s, hi);
            Some(s)
        },
        _ => None,
    }
}

/// The label of a sample interval choice, `<n>ms`.
pub fn format_interval(ms: u64) -> (s: String)
    ensures
        s@ == decimal_text(ms as nat) + "ms"@,
{
    let mut s = String::new();
    push_decimal(&mut s, ms);
    s.append("ms");
    s
}

/// The label of a plot window choice: `All` for no window, else `<n>s`.
pub fn format_window(secs: u64) -> (s: String)
    ensures
        s@ == (if secs == 0 { "All"@ } else { decimal_text(secs as nat) + "s"@ }),
{
    if secs == 0 {
        String::from_str("All")
    } else {
        let mut s = String::new();
        push_decimal(&mut s, secs);
        s.append("s");
        s
    }
}

/// The span of session time (ms) the plot must show: with a window of
/// `window_ms` (0 for all data) and a latest sample at `last`, the window
/// ending at that sample, cut at zero.
pub fn visible_range(last: Option<u64>, window_ms: u64) -> (r: Option<(u64, u64)>)
    ensures
        r == (match last {
            Some(t) => if window_ms > 0 {
                Some((if t >= window_ms { (t - window_ms) as u64 } else { 0u64 }, t))
            } else {
                None
            },
            None => None,
        }),
{
    match last {
        Some(t) => if window_ms > 0 {
            Some((t.saturating_sub(window_ms), t))
        } else {
            None
        },
        None => None,
    }
}

/// The low/high line is shown whenever the channel has a latest reading and
/// a lowest and highest one, whatever their values, and then gives the
/// lowest reading after a down arrow and the highest after an up arrow; with
/// no latest reading there is no line.
pub proof fn lemma_range_line_shown(st: ChannelStats)
    ensures
        (st.latest is Some && st.min is Some && st.max is Some) ==> range_text(st) == Some(
            "↓"@ + tenths_text(st.min.unwrap() as int) + "  ↑"@ + tenths_text(st.max.unwrap() as int),
        ),
        st.latest is None ==> range_text(st) is None,
{
}

/// For the statistics of a channel, the low/high line is shown exactly when
/// the channel has at least one reading, and gives its lowest and highest
/// reading; the large readout gives its latest reading in degrees, or a dash
/// when it has none.
pub proof fn lemma_channel_readout(samples: Seq<Sample>, ch: int)
    ensures
        ({
            let r = channel_readings(samples, ch);
            let st = stats_of(r);
            &&& (range_text(st) is Some <==> r.len() > 0)
            &&& r.len() > 0 ==> range_text(st) == Some(
                "↓"@ + tenths_text(seq_min(r) as int) + "  ↑"@ + tenths_text(seq_max(r) as int),
            )
            &&& r.len() > 0 ==> reading_text(st.latest) == tenths_text(r.last() as int) + " °C"@
            &&& r.len() == 0 ==> reading_text(st.latest) == "—"@
        }),
{
}

/// The padded text of a number is at least two digits long, all digits, and
/// reads back as the number; below 100 it is exactly two digits.
pub proof fn lemma_two_digit_text_reads_back(n: nat)
    ensures
        two_digit_text(n).len() >= 2,
        n < 100 ==> two_digit_text(n).len() == 2,
        forall|i: int| 0 <= i < two_digit_text(n).len() ==> is_digit(#[trigger] two_digit_text(n)[i]),
        digits_value(two_digit_text(n)) == n,
{
    lemma_decimal_text_reads_back(n);
    if n < 10 {
        reveal_strlit("0");
        lemma_digit_text_value(n as int);
        let t = two_digit_text(n);
        assert(t =~= seq!['0', digit_text(n as int)[0]]);
        assert(t.drop_last() =~= seq!['0']);
        assert(t.drop_last().drop_last() =~= Seq::<char>::empty());
        assert(digits_value(Seq::<char>::empty()) == 0);
        assert(digits_value(seq!['0']) == 0) by {
            assert(seq!['0'].drop_last() =~= Seq::<char>::empty());
        }
        assert(t.last() == digit_text(n as int)[0]);
        assert(digits_value(t) == digits_value(t.drop_last()) * 10 + (t.last() as int - '0' as int));
    } else {
        let t = decimal_text(n);
        if t.len() < 2 {
            assert(t.drop_last() =~= Seq::<char>::empty());
            assert(digits_value(t.drop_last()) == 0);
        }
        if n < 100 {
            lemma_decimal_text_reads_back(n / 10);
            lemma_digit_text_value((n / 10) as int);
            lemma_digit_text_value((n % 10) as int);
            assert(n / 10 < 10);
            assert(decimal_text((n / 10) as nat) == digit_text((n / 10) as int));
            assert(decimal_text(n) == decimal_text((n / 10) as nat) + digit_text((n % 10) as int));
        }
    }
}

/// The clock reads as minutes, a colon, and seconds: the seconds are always
/// exactly two digits giving the seconds within the minute, and the minutes,
/// at least two digits, give the whole minutes of the session time.
pub proof fn lemma_clock_text_reads_back(ms: nat)
    ensures
        ({
            let s = clock_text(ms);
            let k = s.len() - 3;
            &&& k >= 2
            &&& s[k] == ':'
            &&& forall|i: int| 0 <= i < s.len() && i != k ==> is_digit(#[trigger] s[i])
            &&& digits_value(s.take(k)) == ms / 60000
            &&& digits_value(s.skip(k + 1)) == (ms / 1000) % 60
        }),
{
    reveal_strlit(":");
    let a = two_digit_text(ms / 60000);
    let b = two_digit_text((ms / 1000) % 60);
    lemma_two_digit_text_reads_back(ms / 60000);
    lemma_two_digit_text_reads_back((ms / 1000) % 60);
    let s = clock_text(ms);
    assert(s =~= a + ":"@ + b);
    let k = s.len() - 3;
    assert(k == a.len());
    assert(s.take(k) =~= a);
    assert(s.skip(k + 1) =~= b);
    assert forall|i: int| 0 <= i < s.len() && i != k implies is_digit(#[trigger] s[i]) by {
        if i < k {
            assert(s[i] == a[i]);
        } else {
            assert(s[i] == b[i - k - 1]);
        }
    }
}

/// A transport control of the window.
#[derive(Clone, Copy, Debug, PartialEq, Eq, Structural)]
pub enum TransportAction {
    Start,
    Pause,
    Resume,
    Stop,
}

/// The transport controls offered in each state, in the order they are
/// shown: Start when idle, Pause and Stop while running, Resume and Stop
/// while paused.
pub open spec fn offered_actions(state: State) -> Seq<TransportAction> {
    match state {
        State::Idle => seq![TransportAction::Start],
        State::Running => seq![TransportAction::Pause, TransportAction::Stop],
        State::Paused => seq![TransportAction::Resume, TransportAction::Stop],
    }
}

/// The state a transport control puts the session in.
pub open spec fn action_target(a: TransportAction) -> State {
    match a {
        TransportAction::Start => State::Running,
        TransportAction::Pause => State::Paused,
        TransportAction::Resume => State::Running,
        TransportAction::Stop => State::Idle,
    }
}

/// The transport controls to show for the session state.
pub fn transport_actions(state: State) -> (v: Vec<TransportAction>)
    ensures
        v@ == offered_actions(state),
{
    let v = match state {
        State::Idle => vec![TransportAction::Start],
        State::Running => vec![TransportAction::Pause, TransportAction::Stop],
        State::Paused => vec![TransportAction::Resume, TransportAction::Stop],
    };
    assert(v@ =~= offered_actions(state));
    v
}

/// Every control offered in a state moves the session to another state,
/// and Stop is offered exactly while a capture is running or paused.
pub proof fn lemma_offered_actions_change_state(state: State)
    ensures
        forall|i: int|
            0 <= i < offered_actions(state).len() ==> action_target(
                #[trigger] offered_actions(state)[i],
            ) != state,
        offered_actions(state).contains(TransportAction::Stop) <==> state != State::Idle,
        offered_actions(state).contains(TransportAction::Start) <==> state == State::Idle,
        offered_actions(state).contains(TransportAction::Pause) <==> state == State::Running,
        offered_actions(state).contains(TransportAction::Resume) <==> state == State::Paused,
{
    let v = offered_actions(state);
    if state == State::Idle {
        assert(v[0] == TransportAction::Start);
    } else if state == State::Running {
        assert(v[0] == TransportAction::Pause);
    } else {
        assert(v[0] == TransportAction::Resume);
    }
    if state != State::Idle {
        assert(offered_actions(state)[1] == TransportAction::Stop);
    } else {
        assert(offered_actions(state)[0] != TransportAction::Stop);
    }
}

/// A capture whose sampling thread reported an error must be stopped.
pub fn must_stop(state: State, has_error: bool) -> (b: bool)
    ensures
        b == (has_error && state != State::Idle),
{
    has_error && state != State::Idle
}

/// Markers can be set only while the capture runs.
pub fn can_mark(state: State) -> (b: bool)
    ensures
        b == (state == State::Running),
{
    state == State::Running
}

/// The data can be exported once there is at least one sample.
pub fn can_export(sample_count: usize) -> (b: bool)
    ensures
        b == (sample_count > 0),
{
    sample_count > 0
}

/// The session clock is shown while a capture is running or paused.
pub fn shows_clock(state: State) -> (b: bool)
    ensures
        b == (state != State::Idle),
{
    state != State::Idle
}

} // verus!
