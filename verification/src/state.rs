//! What the application shares between its threads: settings, whether the
//! bridge runs, and statistics of the channels.
use vstd::prelude::*;

use crate::annexb;
use crate::annexb::{inspect_annexb, H264Summary};
use crate::config::{AppConfig, BridgeConfig, Settings};

verus! {

broadcast use vstd::string::group_string_axioms;

/// Statistics of a channel.
#[derive(Clone, Copy, Debug, PartialEq, Eq, Structural)]
pub struct ChannelStats {
    pub channel: usize,
    pub enabled: bool,
    pub frames: u64,
    pub bytes: u64,
    pub clients: usize,
    pub first_frame_ms: u128,
    pub last_frame_ms: u128,
    pub nal_units: u64,
    pub idr_frames: u64,
    pub sps_units: u64,
    pub pps_units: u64,
    pub multi_nal_frames: u64,
    pub fragmented_nals: u64,
    pub max_frame_bytes: u64,
    pub max_nal_bytes: u64,
}

/// The larger of two numbers.
pub open spec fn max_of(a: int, b: int) -> int {
    if a > b {
        a
    } else {
        b
    }
}

/// One where the condition holds, else zero.
pub open spec fn one_if(b: bool) -> int {
    if b {
        1
    } else {
        0
    }
}

impl ChannelStats {
    /// Statistics of an enabled channel on which nothing has come.
    pub open spec fn fresh(channel: usize) -> ChannelStats {
        ChannelStats {
            channel,
            enabled: true,
            frames: 0,
            bytes: 0,
            clients: 0,
            first_frame_ms: 0,
            last_frame_ms: 0,
            nal_units: 0,
            idr_frames: 0,
            sps_units: 0,
            pps_units: 0,
            multi_nal_frames: 0,
            fragmented_nals: 0,
            max_frame_bytes: 0,
            max_nal_bytes: 0,
        }
    }

    /// The statistics once they are set back: all zero, but for the channel
    /// and whether it is enabled.
    pub open spec fn cleared(self) -> ChannelStats {
        ChannelStats { enabled: self.enabled, ..ChannelStats::fresh(self.channel) }
    }

    /// Whether the counters fit together: what is counted of frames and of NAL
    /// units is no more than there are, and no unit is longer than the longest
    /// frame, nor that longer than all frames together.
    pub open spec fn adds_up(self) -> bool {
        &&& self.idr_frames <= self.frames
        &&& self.multi_nal_frames <= self.frames
        &&& self.sps_units + self.pps_units + self.idr_frames <= self.nal_units
        &&& self.fragmented_nals <= self.nal_units
        &&& self.max_nal_bytes <= self.max_frame_bytes <= self.bytes
    }

    /// Whether the counters can take another frame with these NAL units.
    pub open spec fn room_for(self, len: nat, units: Seq<Seq<u8>>) -> bool {
        &&& self.frames + 1 <= u64::MAX
        &&& self.bytes + len <= u64::MAX
        &&& self.nal_units + units.len() <= u64::MAX
        &&& self.idr_frames + one_if(annexb::has_kind(units, 5)) <= u64::MAX
        &&& self.sps_units + units.filter(annexb::of_kind(7)).len() <= u64::MAX
        &&& self.pps_units + units.filter(annexb::of_kind(8)).len() <= u64::MAX
        &&& self.multi_nal_frames + one_if(units.len() > 1) <= u64::MAX
        &&& self.fragmented_nals + units.filter(annexb::too_long()).len() <= u64::MAX
    }

    /// The statistics once a frame was counted.
    pub open spec fn counted(
        self,
        len: nat,
        units: Seq<Seq<u8>>,
        clients: usize,
        frame_ms: u128,
    ) -> ChannelStats {
        ChannelStats {
            frames: (self.frames + 1) as u64,
            bytes: (self.bytes + len) as u64,
            clients,
            nal_units: (self.nal_units + units.len()) as u64,
            idr_frames: (self.idr_frames + one_if(annexb::has_kind(units, 5))) as u64,
            sps_units: (self.sps_units + units.filter(annexb::of_kind(7)).len()) as u64,
            pps_units: (self.pps_units + units.filter(annexb::of_kind(8)).len()) as u64,
            multi_nal_frames: (self.multi_nal_frames + one_if(units.len() > 1)) as u64,
            fragmented_nals: (self.fragmented_nals + units.filter(annexb::too_long()).len()) as u64,
            max_frame_bytes: max_of(self.max_frame_bytes as int, len as int) as u64,
            max_nal_bytes: max_of(
                self.max_nal_bytes as int,
                annexb::longest(units) as int,
            ) as u64,
            first_frame_ms: if self.first_frame_ms == 0 {
                frame_ms
            } else {
                self.first_frame_ms
            },
            last_frame_ms: frame_ms,
            ..self
        }
    }

    /// Statistics of an enabled channel on which nothing has come.
    pub fn new(channel: usize) -> (r: ChannelStats)
        ensures
            r == ChannelStats::fresh(channel),
    {
        ChannelStats {
            channel,
            enabled: true,
            frames: 0,
            bytes: 0,
            clients: 0,
            first_frame_ms: 0,
            last_frame_ms: 0,
            nal_units: 0,
            idr_frames: 0,
            sps_units: 0,
            pps_units: 0,
            multi_nal_frames: 0,
            fragmented_nals: 0,
            max_frame_bytes: 0,
            max_nal_bytes: 0,
        }
    }

    /// Sets the counters back.
    pub fn reset(&mut self)
        ensures
            *final(self) == old(self).cleared(),
    {
        self.frames = 0;
        self.bytes = 0;
        self.clients = 0;
        self.first_frame_ms = 0;
        self.last_frame_ms = 0;
        self.nal_units = 0;
        self.idr_frames = 0;
        self.sps_units = 0;
        self.pps_units = 0;
        self.multi_nal_frames = 0;
        self.fragmented_nals = 0;
        self.max_frame_bytes = 0;
        self.max_nal_bytes = 0;
    }

    fn has_room(&self, len: u64, s: &H264Summary) -> (r: bool)
        ensures
            forall|units: Seq<Seq<u8>>| #[trigger]
                annexb::sums_up(*s, units) ==> r == self.room_for(len as nat, units),
    {
        self.frames < u64::MAX && self.bytes <= u64::MAX - len && self.nal_units <= u64::MAX
            - s.nal_units && (!s.has_idr || self.idr_frames < u64::MAX) && self.sps_units
            <= u64::MAX - s.sps_units && self.pps_units <= u64::MAX - s.pps_units && (s.nal_units
            <= 1 || self.multi_nal_frames < u64::MAX) && self.fragmented_nals <= u64::MAX
            - s.fragmented_nals
    }

    /// Counts a frame that was sent to so many clients, where the counters can
    /// take it; tells whether they could.
    pub fn record_frame(&mut self, annexb: &[u8], clients: usize, frame_ms: u128) -> (r: bool)
        ensures
            r == old(self).room_for(annexb@.len(), annexb::nal_units(annexb@)),
            *final(self) == (if r {
                old(self).counted(
                    annexb@.len(),
                    annexb::nal_units(annexb@),
                    clients,
                    frame_ms,
                )
            } else {
                *old(self)
            }),
    {
        let h264 = inspect_annexb(annexb);
        let len: u64 = annexb.len() as u64;
        if !self.has_room(len, &h264) {
            return false;
        }
        self.frames = self.frames + 1;
        self.bytes = self.bytes + len;
        self.clients = clients;
        self.nal_units = self.nal_units + h264.nal_units;
        if h264.has_idr {
            self.idr_frames = self.idr_frames + 1;
        }
        self.sps_units = self.sps_units + h264.sps_units;
        self.pps_units = self.pps_units + h264.pps_units;
        if h264.nal_units > 1 {
            self.multi_nal_frames = self.multi_nal_frames + 1;
        }
        self.fragmented_nals = self.fragmented_nals + h264.fragmented_nals;
        if len > self.max_frame_bytes {
            self.max_frame_bytes = len;
        }
        if h264.max_nal_bytes > self.max_nal_bytes {
            self.max_nal_bytes = h264.max_nal_bytes;
        }
        if self.first_frame_ms == 0 {
            self.first_frame_ms = frame_ms;
        }
        self.last_frame_ms = frame_ms;
        true
    }
}

impl ChannelStats {
    /// Over what the frame rate is taken: how many frames came after the first,
    /// and in how many milliseconds. None before two frames came apart in time.
    pub fn frame_span(&self) -> (r: Option<(u64, u128)>)
        ensures
            r == (if self.frames >= 2 && self.last_frame_ms > self.first_frame_ms {
                Some(
                    (
                        (self.frames - 1) as u64,
                        (self.last_frame_ms - self.first_frame_ms) as u128,
                    ),
                )
            } else {
                None
            }),
    {
        if self.frames < 2 || self.last_frame_ms <= self.first_frame_ms {
            None
        } else {
            Some((self.frames - 1, self.last_frame_ms - self.first_frame_ms))
        }
    }
}

/// What the threads share.
pub struct SharedState {
    pub config: AppConfig,
    pub running: bool,
    pub status: String,
    pub stats: [ChannelStats; 4],
    /// While the bridge runs: whether it has been asked to stop.
    pub stop: Option<bool>,
}

/// What the shared state holds.
#[verifier::ext_equal]
pub struct Shared {
    pub config: Settings,
    pub running: bool,
    pub status: Seq<char>,
    pub stats: Seq<ChannelStats>,
    pub stop: Option<bool>,
}

impl View for SharedState {
    type V = Shared;

    open spec fn view(&self) -> Shared {
        Shared {
            config: self.config@,
            running: self.running,
            status: self.status@,
            stats: self.stats@,
            stop: self.stop,
        }
    }
}

/// What is noted at the end of a run.
pub open spec fn end_status(result: Result<(), String>, stop: Option<bool>) -> Seq<char> {
    match result {
        Ok(_) => if stop == Some(true) {
            "stopped"@
        } else {
            "finished"@
        },
        Err(e) => "error: "@ + e@,
    }
}

impl Shared {
    /// The bridge can be asked to stop just while it runs.
    pub open spec fn wf(self) -> bool {
        self.running == (self.stop is Some) && self.stats.len() == 4
    }

    /// The state once the bridge was started, with the statistics set back.
    pub open spec fn started(self) -> Shared {
        Shared {
            running: true,
            stop: Some(false),
            status: "starting"@,
            stats: self.stats.map_values(|s: ChannelStats| s.cleared()),
            ..self
        }
    }

    /// The state once the bridge was asked to stop.
    pub open spec fn stopping(self) -> Shared {
        if self.stop is Some {
            Shared { stop: Some(true), status: "stopping"@, ..self }
        } else {
            Shared { running: false, status: "stopped"@, ..self }
        }
    }

    /// The state once the bridge has ended.
    pub open spec fn ended(self, result: Result<(), String>) -> Shared {
        Shared { running: false, stop: None, status: end_status(result, self.stop), ..self }
    }

    /// The state once the device has begun to stream these channels.
    pub open spec fn streaming(self, channels: Seq<bool>) -> Shared {
        Shared {
            status: "streaming"@,
            stats: Seq::new(
                self.stats.len(),
                |i: int| ChannelStats { enabled: channels[i], ..self.stats[i] },
            ),
            ..self
        }
    }
}

impl SharedState {
    /// The state before the bridge has run.
    pub fn new(config: AppConfig) -> (r: SharedState)
        ensures
            r@.wf(),
            r.config == config,
            !r.running,
            r.stop is None,
            r.status@ == "idle"@,
            r.stats@ == seq![
                ChannelStats::fresh(1),
                ChannelStats::fresh(2),
                ChannelStats::fresh(3),
                ChannelStats::fresh(4),
            ],
    {
        SharedState {
            config,
            running: false,
            status: "idle".to_owned(),
            stats: [
                ChannelStats::new(1),
                ChannelStats::new(2),
                ChannelStats::new(3),
                ChannelStats::new(4),
            ],
            stop: None,
        }
    }

    /// Notes what is going on.
    pub fn set_status(&mut self, status: &str)
        ensures
            final(self)@ == (Shared { status: status@, ..old(self)@ }),
    {
        self.status = status.to_owned();
    }
}

/// The settings that a bridge is started with.
pub open spec fn taken_from(b: BridgeConfig, c: AppConfig) -> bool {
    &&& b.host@ == c.host@
    &&& b.port == c.port
    &&& b.user@ == c.user@
    &&& b.password@ == c.password@
    &&& b.stream_name@ == c.stream_name@
    &&& b.channels@ == c.channels@
}

/// Makes ready for a run of the bridge, with the statistics set back; the
/// settings are what to run it with. Nothing happens while it runs.
pub fn start_bridge(state: &mut SharedState) -> (r: Option<BridgeConfig>)
    ensures
        r is None <==> old(state).running,
        match r {
            Some(b) => taken_from(b, old(state).config) && final(state)@ == old(state)@.started(),
            None => *final(state) == *old(state),
        },
{
    if state.running {
        return None;
    }
    let ghost before = state.stats@;
    let mut i: usize = 0;
    while i < 4
        invariant
            i <= 4,
            state.stats@.len() == 4,
            before == old(state).stats@,
            before.len() == 4,
            state.config == old(state).config,
            forall|j: int|
                0 <= j < 4 ==> #[trigger] state.stats@[j] == (if j < i {
                    before[j].cleared()
                } else {
                    before[j]
                }),
        decreases 4 - i,
    {
        state.stats[i].reset();
        i += 1;
    }
    state.stop = Some(false);
    state.running = true;
    state.status = "starting".to_owned();
    assert(state@ =~= old(state)@.started());
    Some(BridgeConfig::from(state.config.clone()))
}

/// Asks the bridge to stop, if it runs; tells whether it does.
pub fn stop_bridge(state: &mut SharedState) -> (r: bool)
    ensures
        r == (old(state).stop is Some),
        final(state)@ == old(state)@.stopping(),
{
    if state.stop.is_some() {
        state.stop = Some(true);
        state.status = "stopping".to_owned();
        true
    } else {
        state.running = false;
        state.status = "stopped".to_owned();
        false
    }
}

/// Takes note that the bridge has ended.
pub fn finish_bridge(state: &mut SharedState, result: Result<(), String>)
    ensures
        final(state)@ == old(state)@.ended(result),
{
    let asked = match state.stop {
        Some(asked) => asked,
        None => false,
    };
    state.running = false;
    state.stop = None;
    state.status = match result {
        Ok(_) => {
            if asked {
                "stopped".to_owned()
            } else {
                "finished".to_owned()
            }
        },
        Err(e) => {
            let mut s = "error: ".to_owned();
            s.append(e.as_str());
            s
        },
    };
}

/// Takes note that the device has begun to stream these channels.
pub fn streaming_begins(state: &mut SharedState, channels: &[bool; 4])
    ensures
        final(state)@ == old(state)@.streaming(channels@),
{
    state.status = "streaming".to_owned();
    let ghost before = state.stats@;
    let mut i: usize = 0;
    while i < 4
        invariant
            i <= 4,
            before == old(state).stats@,
            before.len() == 4,
            channels@.len() == 4,
            state.stats@.len() == 4,
            state.config == old(state).config,
            state.running == old(state).running,
            state.stop == old(state).stop,
            state.status@ == "streaming"@,
            forall|j: int|
                0 <= j < 4 ==> #[trigger] state.stats@[j] == (if j < i {
                    ChannelStats { enabled: channels@[j], ..before[j] }
                } else {
                    before[j]
                }),
        decreases 4 - i,
    {
        state.stats[i].enabled = channels[i];
        i += 1;
    }
    assert(state@ =~= old(state)@.streaming(channels@));
}

/// Takes note that the stream has ended because the bridge was asked to stop.
pub fn streaming_ends(state: &mut SharedState)
    ensures
        final(state)@ == (Shared { status: "stopped"@, ..old(state)@ }),
{
    state.set_status("stopped");
}

/// Starting, stopping and ending keep the state in order: the bridge can be
/// asked to stop just while it runs.
pub proof fn the_state_stays_in_order(s: Shared, result: Result<(), String>, channels: Seq<bool>)
    requires
        s.wf(),
    ensures
        s.started().wf(),
        s.stopping().wf(),
        s.ended(result).wf(),
        s.streaming(channels).wf(),
{
}

/// A run that was asked to stop and ends without an error ends as stopped, and
/// another run can be started after it; a run that ends by itself is finished.
pub proof fn runs_end_as_they_were_asked_to(s: Shared, result: Result<(), String>)
    requires
        s.wf(),
        !s.running,
        result is Ok,
    ensures
        s.started().stopping().ended(result).status == "stopped"@,
        s.started().ended(result).status == "finished"@,
        !s.started().stopping().ended(result).running,
{
}

/// Statistics add up from the start, and however many frames are counted.
pub proof fn statistics_add_up(
    s: ChannelStats,
    channel: usize,
    frame: Seq<u8>,
    clients: usize,
    frame_ms: u128,
)
    requires
        s.adds_up(),
        s.room_for(frame.len(), annexb::nal_units(frame)),
    ensures
        ChannelStats::fresh(channel).adds_up(),
        s.cleared().adds_up(),
        s.counted(frame.len(), annexb::nal_units(frame), clients, frame_ms).adds_up(),
{
    annexb::lemma_longest_fits(frame);
    annexb::lemma_kinds_counted(annexb::nal_units(frame));
}

/// A run starts with empty statistics, whatever was counted before; which
/// channels are enabled stays.
pub proof fn runs_start_with_empty_statistics(s: Shared, i: int)
    requires
        s.wf(),
        0 <= i < 4,
    ensures
        s.started().stats[i] == (ChannelStats {
            enabled: s.stats[i].enabled,
            ..ChannelStats::fresh(s.stats[i].channel)
        }),
{
}

/// A frame adds itself to the statistics of its channel, with all that the summary
/// of its units counts: one frame, its bytes, its units, one instantaneous refresh
/// where it holds one, one of several units where it holds more than one; the
/// longest frame and unit are at least its own. The first frame sets the time of
/// the first, every frame that of the last; the channel and whether it is enabled
/// stay.
pub proof fn frames_are_counted(
    s: ChannelStats,
    frame: Seq<u8>,
    h: H264Summary,
    clients: usize,
    frame_ms: u128,
)
    requires
        annexb::sums_up(h, annexb::nal_units(frame)),
        s.room_for(frame.len(), annexb::nal_units(frame)),
    ensures
        ({
            let t = s.counted(frame.len(), annexb::nal_units(frame), clients, frame_ms);
            &&& t.channel == s.channel
            &&& t.enabled == s.enabled
            &&& t.frames == s.frames + 1
            &&& t.bytes == s.bytes + frame.len()
            &&& t.clients == clients
            &&& t.nal_units == s.nal_units + h.nal_units
            &&& h.has_idr ==> t.idr_frames == s.idr_frames + 1
            &&& !h.has_idr ==> t.idr_frames == s.idr_frames
            &&& t.sps_units == s.sps_units + h.sps_units
            &&& t.pps_units == s.pps_units + h.pps_units
            &&& h.nal_units > 1 ==> t.multi_nal_frames == s.multi_nal_frames + 1
            &&& h.nal_units <= 1 ==> t.multi_nal_frames == s.multi_nal_frames
            &&& t.fragmented_nals == s.fragmented_nals + h.fragmented_nals
            &&& t.max_frame_bytes >= s.max_frame_bytes && t.max_frame_bytes >= frame.len()
            &&& t.max_frame_bytes == s.max_frame_bytes || t.max_frame_bytes == frame.len()
            &&& t.max_nal_bytes >= s.max_nal_bytes && t.max_nal_bytes >= h.max_nal_bytes
            &&& t.max_nal_bytes == s.max_nal_bytes || t.max_nal_bytes == h.max_nal_bytes
            &&& s.first_frame_ms == 0 ==> t.first_frame_ms == frame_ms
            &&& s.first_frame_ms != 0 ==> t.first_frame_ms == s.first_frame_ms
            &&& t.last_frame_ms == frame_ms
        }),
{
    annexb::lemma_longest_fits(frame);
}

/// There is room for a frame while no counter has come near its end.
pub proof fn counters_have_room(s: ChannelStats, frame: Seq<u8>)
    requires
        frame.len() <= 0x7fff_ffff_ffff_ffff,
        s.frames < 0x7fff_ffff_ffff_ffff,
        s.bytes < 0x7fff_ffff_ffff_ffff,
        s.nal_units < 0x7fff_ffff_ffff_ffff,
        s.adds_up(),
    ensures
        s.room_for(frame.len(), annexb::nal_units(frame)),
{
    annexb::lemma_longest_fits(frame);
    annexb::lemma_units_fit(frame);
    annexb::lemma_kinds_counted(annexb::nal_units(frame));
}

/// Statistics start from nothing, and go back to it: no frame, no byte, no unit, no
/// client and no time. A new channel is enabled; one that is set back stays as
/// enabled as it was.
pub proof fn statistics_start_from_nothing(s: ChannelStats, channel: usize)
    ensures
        forall|t: ChannelStats|
            t == ChannelStats::fresh(channel) || t == s.cleared() ==> {
                &&& t.frames == 0 && t.bytes == 0 && t.clients == 0
                &&& t.first_frame_ms == 0 && t.last_frame_ms == 0
                &&& t.nal_units == 0 && t.idr_frames == 0 && t.sps_units == 0
                &&& t.pps_units == 0 && t.multi_nal_frames == 0 && #[trigger] t.fragmented_nals == 0
                &&& t.max_frame_bytes == 0 && t.max_nal_bytes == 0
            },
        ChannelStats::fresh(channel).channel == channel,
        ChannelStats::fresh(channel).enabled,
        s.cleared().channel == s.channel,
        s.cleared().enabled == s.enabled,
{
}

/// What starting, stopping, ending and streaming do to the shared state: each notes
/// what is going on, and the settings stay.
pub proof fn the_state_tells_what_goes_on(
    s: Shared,
    channels: Seq<bool>,
    i: int,
    done: Result<(), String>,
    failed: String,
)
    requires
        s.wf(),
        channels.len() == 4,
        0 <= i < 4,
        done is Ok,
    ensures
        s.started().running && s.started().stop == Some(false),
        s.started().status == "starting"@,
        s.started().config == s.config,
        s.running ==> s.stopping() == (Shared { stop: Some(true), status: "stopping"@, ..s }),
        !s.running ==> s.stopping() == (Shared { status: "stopped"@, ..s }),
        s.ended(done).status == (if s.stop == Some(true) {
            "stopped"@
        } else {
            "finished"@
        }),
        s.ended(Err(failed)).status == "error: "@ + failed@,
        !s.ended(done).running && !s.ended(Err(failed)).running,
        s.ended(done).stop is None && s.ended(Err(failed)).stop is None,
        s.ended(done).config == s.config && s.ended(Err(failed)).config == s.config,
        s.ended(done).stats == s.stats && s.ended(Err(failed)).stats == s.stats,
        s.streaming(channels).status == "streaming"@,
        s.streaming(channels).stats.len() == 4,
        s.streaming(channels).stats[i] == (ChannelStats { enabled: channels[i], ..s.stats[i] }),
        s.streaming(channels).config == s.config,
        s.streaming(channels).running == s.running,
        s.streaming(channels).stop == s.stop,
{
}

/// A bridge is started with the settings of the application.
pub proof fn bridges_run_with_the_settings(b: BridgeConfig, c: AppConfig)
    requires
        taken_from(b, c),
    ensures
        b.host@ == c@.host,
        b.port == c@.port,
        b.user@ == c@.user,
        b.password@ == c@.password,
        b.stream_name@ == c@.stream_name,
        b.channels@ == c@.channels,
{
}

} // verus!
