//! The native player's requests and replies, and the checks it makes before
//! it builds a decoder: which sources it plays, which window it draws in,
//! which frame processors it has, and how an audio or subtitle track is
//! labelled.
use vstd::prelude::*;
use crate::text::{chars_of, decimal, has_prefix, push_decimal, push_str_chars, string_from_chars};

verus! {

/// A model-based frame processing step.
#[derive(Debug, Clone, Copy, PartialEq, Eq, Structural)]
pub enum AiOperation {
    SuperResolution,
    FrameInterpolation,
}

/// What the decoder passes frames through.
pub enum FrameProcessorRequest {
    Passthrough,
    Onnx { model_id: String, operation: AiOperation },
}

/// A request to open a media source.
pub struct OpenRequest {
    pub uri: String,
    pub title: String,
    pub is_audio: bool,
    pub start_position_ms: Option<u64>,
    pub renderer_window_label: Option<String>,
    pub controller_window_label: Option<String>,
    pub processor: FrameProcessorRequest,
}

/// The reply to an open: the playback's generation and how it renders.
pub struct OpenResponse {
    pub generation: u64,
    pub renderer_mode: &'static str,
}

/// An audio or subtitle track.
pub struct MediaTrack {
    pub index: i32,
    pub label: String,
    pub language: Option<String>,
    pub codec: Option<String>,
    pub selected: bool,
}

/// An event sent to the player's windows.
pub struct PlayerEvent {
    pub generation: u64,
    pub kind: &'static str,
    pub message: Option<String>,
    pub percent: Option<i32>,
}

pub open spec fn starts_with(s: Seq<char>, p: Seq<char>) -> bool {
    s.len() >= p.len() && s.take(p.len() as int) == p
}

/// The sources the player accepts: HTTP, HTTPS and local files.
pub open spec fn playable_uri(uri: Seq<char>) -> bool {
    starts_with(uri, "http://"@) || starts_with(uri, "https://"@) || starts_with(uri, "file://"@)
}

fn starts_with_str(s: &str, p: &str) -> (r: bool)
    ensures
        r == starts_with(s@, p@),
{
    let a = chars_of(s);
    let b = chars_of(p);
    has_prefix(a.as_slice(), b.as_slice())
}

pub fn validate_uri(uri: &str) -> (r: Result<(), String>)
    ensures
        r is Ok <==> playable_uri(uri@),
        r matches Err(e) ==> e@ == "Only HTTP(S) and file media sources are accepted"@,
{
    if starts_with_str(uri, "http://") || starts_with_str(uri, "https://") || starts_with_str(uri, "file://") {
        Ok(())
    } else {
        Err("Only HTTP(S) and file media sources are accepted".to_string())
    }
}

/// Checks a request before anything is built: a playable source, a
/// renderer window to draw in, and no frame processor (none is installed).
/// Gives the renderer window's label.
pub fn check_open_request(request: &OpenRequest) -> (r: Result<String, String>)
    ensures
        !playable_uri(request.uri@) ==> (r matches Err(e) && e@ == "Only HTTP(S) and file media sources are accepted"@),
        playable_uri(request.uri@) && request.renderer_window_label is None ==> (r matches Err(e) && e@
            == "Desktop playback requires a renderer window label"@),
        playable_uri(request.uri@) && request.renderer_window_label is Some && !(request.processor is Passthrough)
            ==> (r matches Err(e) && e@ == "The ONNX frame-processor API is reserved but no AI processor is installed"@),
        playable_uri(request.uri@) && request.processor is Passthrough ==> match request.renderer_window_label {
            Some(l) => r matches Ok(x) && x@ == l@,
            None => r is Err,
        },
{
    validate_uri(request.uri.as_str())?;
    let label = match &request.renderer_window_label {
        Some(l) => l.clone(),
        None => {
            return Err("Desktop playback requires a renderer window label".to_string());
        },
    };
    match &request.processor {
        FrameProcessorRequest::Passthrough => Ok(label),
        FrameProcessorRequest::Onnx { .. } => Err(
            "The ONNX frame-processor API is reserved but no AI processor is installed".to_string(),
        ),
    }
}

/// The reply to a successful open of generation `generation`.
pub fn open_response(generation: u64) -> (r: OpenResponse)
    ensures
        r.generation == generation,
        r.renderer_mode@ == "embedded-native-surface"@,
{
    OpenResponse { generation, renderer_mode: "embedded-native-surface" }
}

pub open spec fn first_present(a: Option<String>, b: Option<String>, c: Option<String>) -> Option<Seq<char>> {
    match a {
        Some(x) => Some(x@),
        None => match b {
            Some(x) => Some(x@),
            None => match c {
                Some(x) => Some(x@),
                None => None,
            },
        },
    }
}

/// How a track is labelled: its title, else its language, else its codec,
/// else the fallback word and its number counting from one.
pub open spec fn track_label(
    index: i32,
    title: Option<String>,
    language: Option<String>,
    codec: Option<String>,
    fallback: Seq<char>,
) -> Seq<char> {
    match first_present(title, language, codec) {
        Some(x) => x,
        None => fallback + seq![' '] + decimal((index + 1) as nat),
    }
}

/// The track at `index` of a decoder whose selected track is `selected`.
pub fn media_track(
    index: i32,
    selected: i32,
    title: Option<String>,
    language: Option<String>,
    codec: Option<String>,
    fallback: &str,
) -> (r: MediaTrack)
    requires
        0 <= index < i32::MAX,
    ensures
        r.index == index,
        r.label@ == track_label(index, title, language, codec, fallback@),
        r.language == language,
        r.codec == codec,
        r.selected == (index == selected),
{
    let label = match &title {
        Some(t) => t.clone(),
        None => match &language {
            Some(l) => l.clone(),
            None => match &codec {
                Some(c) => c.clone(),
                None => {
                    let mut out: Vec<char> = chars_of(fallback);
                    out.push(' ');
                    push_decimal(&mut out, (index + 1) as u64);
                    proof {
                        assert(out@ =~= fallback@ + seq![' '] + decimal((index + 1) as nat));
                    }
                    string_from_chars(out.as_slice())
                },
            },
        },
    };
    MediaTrack { index, label, language, codec, selected: index == selected }
}

// ----------------------------------------------------------------------
// The playback session
// ----------------------------------------------------------------------

/// The player between and during playbacks: the current playback's
/// generation (each open or stop starts a new one, so that whatever still
/// serves an older one can tell), the windows it draws in and reports to,
/// its title, whether it should be playing, the last buffering percent (-1
/// when none) and the external subtitles in use.
pub struct PlayerSession {
    pub generation: u64,
    pub renderer_window_label: Option<String>,
    pub controller_window_label: Option<String>,
    pub title: Option<String>,
    pub desired_playing: bool,
    pub buffering_percent: i32,
    pub external_subtitle_uri: Option<String>,
}

impl PlayerSession {
    pub fn new() -> (r: Self)
        ensures
            r.generation == 0,
            r.renderer_window_label is None,
            r.controller_window_label is None,
            r.title is None,
            !r.desired_playing,
            r.buffering_percent == -1,
            r.external_subtitle_uri is None,
    {
        PlayerSession {
            generation: 0,
            renderer_window_label: None,
            controller_window_label: None,
            title: None,
            desired_playing: false,
            buffering_percent: -1,
            external_subtitle_uri: None,
        }
    }

    /// Whether generation `g` is still the current playback.
    pub fn is_current(&self, g: u64) -> (r: bool)
        ensures
            r == (self.generation == g),
    {
        self.generation == g
    }

    /// Lets go of the current playback (its pipeline is stopped by the
    /// caller): a new generation, not playing, no windows.
    pub fn release(&mut self)
        requires
            old(self).generation < u64::MAX,
        ensures
            final(self).generation == old(self).generation + 1,
            !final(self).desired_playing,
            final(self).renderer_window_label is None,
            final(self).controller_window_label is None,
            final(self).title == old(self).title,
            final(self).buffering_percent == old(self).buffering_percent,
            final(self).external_subtitle_uri == old(self).external_subtitle_uri,
    {
        self.generation = self.generation + 1;
        self.desired_playing = false;
        self.renderer_window_label = None;
        self.controller_window_label = None;
    }

    /// Stops playback: the playback is released and its title and external
    /// subtitles are forgotten.
    pub fn stop(&mut self)
        requires
            old(self).generation < u64::MAX,
        ensures
            final(self).generation == old(self).generation + 1,
            !final(self).desired_playing,
            final(self).renderer_window_label is None,
            final(self).controller_window_label is None,
            final(self).title is None,
            final(self).external_subtitle_uri is None,
            final(self).buffering_percent == old(self).buffering_percent,
    {
        self.release();
        self.title = None;
        self.external_subtitle_uri = None;
    }

    /// Starts opening a source: the playing one is released, and the open
    /// gets a generation of its own, newer than every earlier one; gives it.
    pub fn begin_open(&mut self, renderer: String, controller: Option<String>, title: String) -> (g: u64)
        requires
            old(self).generation < u64::MAX - 1,
        ensures
            g == old(self).generation + 2,
            final(self).generation == g,
            !final(self).desired_playing,
            final(self).renderer_window_label == Some(renderer),
            final(self).controller_window_label == controller,
            final(self).title == Some(title),
            final(self).buffering_percent == old(self).buffering_percent,
            final(self).external_subtitle_uri == old(self).external_subtitle_uri,
    {
        self.release();
        self.generation = self.generation + 1;
        self.renderer_window_label = Some(renderer);
        self.controller_window_label = controller;
        self.title = Some(title);
        self.generation
    }

    /// An open of generation `g` failed before its pipeline ran: its windows
    /// and title are forgotten, unless a newer open has taken over.
    pub fn abandon_open(&mut self, g: u64)
        ensures
            final(self).generation == old(self).generation,
            final(self).desired_playing == old(self).desired_playing,
            final(self).buffering_percent == old(self).buffering_percent,
            final(self).external_subtitle_uri == old(self).external_subtitle_uri,
            if old(self).generation == g {
                &&& final(self).renderer_window_label is None
                &&& final(self).controller_window_label is None
                &&& final(self).title is None
            } else {
                &&& final(self).renderer_window_label == old(self).renderer_window_label
                &&& final(self).controller_window_label == old(self).controller_window_label
                &&& final(self).title == old(self).title
            },
    {
        if self.generation == g {
            self.renderer_window_label = None;
            self.controller_window_label = None;
            self.title = None;
        }
    }

    /// The pipeline of the current open is about to play: it should play,
    /// nothing is buffered yet, and no external subtitles are in use.
    pub fn playback_started(&mut self)
        ensures
            final(self).generation == old(self).generation,
            final(self).desired_playing,
            final(self).buffering_percent == -1,
            final(self).external_subtitle_uri is None,
            final(self).renderer_window_label == old(self).renderer_window_label,
            final(self).controller_window_label == old(self).controller_window_label,
            final(self).title == old(self).title,
    {
        self.desired_playing = true;
        self.buffering_percent = -1;
        self.external_subtitle_uri = None;
    }

    /// The pipeline of the current open would not play or seek: the
    /// playback ends, under a new generation so that its watcher stops.
    pub fn playback_failed(&mut self)
        requires
            old(self).generation < u64::MAX,
        ensures
            final(self).generation == old(self).generation + 1,
            !final(self).desired_playing,
            final(self).renderer_window_label is None,
            final(self).controller_window_label is None,
            final(self).title is None,
            final(self).buffering_percent == old(self).buffering_percent,
            final(self).external_subtitle_uri == old(self).external_subtitle_uri,
    {
        self.generation = self.generation + 1;
        self.desired_playing = false;
        self.renderer_window_label = None;
        self.controller_window_label = None;
        self.title = None;
    }
}

// ----------------------------------------------------------------------
// Watching the decoder's bus
// ----------------------------------------------------------------------

/// A state of the decoder pipeline.
#[derive(Debug, Clone, Copy, PartialEq, Eq, Structural)]
pub enum PipelineState {
    VoidPending,
    Null,
    Ready,
    Paused,
    Playing,
}

pub open spec fn state_name_spec(s: PipelineState) -> Seq<char> {
    match s {
        PipelineState::VoidPending => "voidpending"@,
        PipelineState::Null => "null"@,
        PipelineState::Ready => "ready"@,
        PipelineState::Paused => "paused"@,
        PipelineState::Playing => "playing"@,
    }
}

/// The name a state change is reported under.
pub fn state_name(s: PipelineState) -> (r: &'static str)
    ensures
        r@ == state_name_spec(s),
{
    match s {
        PipelineState::VoidPending => {
            proof {
                reveal_strlit("voidpending");
            }
            "voidpending"
        },
        PipelineState::Null => {
            proof {
                reveal_strlit("null");
            }
            "null"
        },
        PipelineState::Ready => {
            proof {
                reveal_strlit("ready");
            }
            "ready"
        },
        PipelineState::Paused => {
            proof {
                reveal_strlit("paused");
            }
            "paused"
        },
        PipelineState::Playing => {
            proof {
                reveal_strlit("playing");
            }
            "playing"
        },
    }
}

/// A message of the decoder's bus, as far as the watcher reads it.
pub enum BusMessage {
    EndOfStream,
    Error { error: String, debug: Option<String> },
    Warning { error: String },
    Buffering { percent: i32 },
    /// The pipeline itself, not one of its elements, changed state.
    PipelineStateChanged { current: PipelineState },
    /// The streams of the source, or those selected, changed.
    TracksChanged,
    Other,
}

/// What the watcher does to the pipeline.
#[derive(Debug, Clone, Copy, PartialEq, Eq, Structural)]
pub enum PipelineCommand {
    Nothing,
    /// Seek back to the start; once that succeeded, play again when `resume`.
    RestartFromStart { resume: bool },
    Pause,
    Play,
}

/// The watcher's answer to a message: the command, whether playback is
/// still wanted, the buffering percent to record, the event for the
/// windows, and whether watching ends.
pub struct BusReaction {
    pub command: PipelineCommand,
    pub desired_playing: bool,
    pub buffering_percent: Option<i32>,
    pub event: Option<PlayerEvent>,
    pub stop_watching: bool,
}

/// An error's text: the error, then its debug detail in brackets.
pub open spec fn error_text(error: Seq<char>, debug: Option<String>) -> Seq<char> {
    match debug {
        Some(d) => error + " ("@ + d@ + ")"@,
        None => error,
    }
}

/// `e` is the event of generation `g` of kind `kind`.
pub open spec fn event_is(e: Option<PlayerEvent>, g: u64, kind: Seq<char>, message: Option<Seq<char>>, percent: Option<i32>) -> bool {
    &&& e is Some
    &&& e->0.generation == g
    &&& e->0.kind@ == kind
    &&& match (e->0.message, message) {
        (Some(a), Some(b)) => a@ == b,
        (None, None) => true,
        _ => false,
    }
    &&& e->0.percent == percent
}

fn event(generation: u64, kind: &'static str, message: Option<String>, percent: Option<i32>) -> (r: Option<PlayerEvent>)
    ensures
        r == Some(PlayerEvent { generation, kind, message, percent }),
{
    Some(PlayerEvent { generation, kind, message, percent })
}

/// How the watcher of generation `generation` answers `message`, with
/// `looping` and `desired_playing` as they stand.
pub fn bus_reaction(message: &BusMessage, generation: u64, looping: bool, desired_playing: bool) -> (r: BusReaction)
    ensures
        r.stop_watching == (message is Error),
        r.buffering_percent == (match message {
            BusMessage::Buffering { percent } => Some(*percent),
            _ => None,
        }),
        match message {
            BusMessage::EndOfStream => if looping {
                &&& r.command == PipelineCommand::RestartFromStart { resume: desired_playing }
                &&& r.desired_playing == desired_playing
                &&& event_is(r.event, generation, "looped"@, None, None)
            } else {
                &&& r.command == PipelineCommand::Nothing
                &&& !r.desired_playing
                &&& event_is(r.event, generation, "ended"@, None, None)
            },
            BusMessage::Error { error, debug } => {
                &&& r.command == PipelineCommand::Nothing
                &&& !r.desired_playing
                &&& event_is(r.event, generation, "error"@, Some(error_text(error@, *debug)), None)
            },
            BusMessage::Warning { error } => {
                &&& r.command == PipelineCommand::Nothing
                &&& r.desired_playing == desired_playing
                &&& event_is(r.event, generation, "warning"@, Some(error@), None)
            },
            BusMessage::Buffering { percent } => {
                &&& r.command == (if *percent < 100 {
                    PipelineCommand::Pause
                } else if desired_playing {
                    PipelineCommand::Play
                } else {
                    PipelineCommand::Nothing
                })
                &&& r.desired_playing == desired_playing
                &&& event_is(r.event, generation, "buffering"@, None, Some(*percent))
            },
            BusMessage::PipelineStateChanged { current } => {
                &&& r.command == PipelineCommand::Nothing
                &&& r.desired_playing == desired_playing
                &&& event_is(r.event, generation, "stateChanged"@, Some(state_name_spec(*current)), None)
            },
            BusMessage::TracksChanged => {
                &&& r.command == PipelineCommand::Nothing
                &&& r.desired_playing == desired_playing
                &&& event_is(r.event, generation, "tracksChanged"@, None, None)
            },
            BusMessage::Other => {
                &&& r.command == PipelineCommand::Nothing
                &&& r.desired_playing == desired_playing
                &&& r.event is None
            },
        },
{
    let quiet = |command: PipelineCommand, desired: bool, e: Option<PlayerEvent>| -> (b: BusReaction)
        ensures
            b == (BusReaction {
                command,
                desired_playing: desired,
                buffering_percent: None,
                event: e,
                stop_watching: false,
            }),
    {
        BusReaction { command, desired_playing: desired, buffering_percent: None, event: e, stop_watching: false }
    };
    match message {
        BusMessage::EndOfStream => if looping {
            let e = event(generation, "looped", None, None);
            proof {
                reveal_strlit("looped");
            }
            quiet(PipelineCommand::RestartFromStart { resume: desired_playing }, desired_playing, e)
        } else {
            let e = event(generation, "ended", None, None);
            proof {
                reveal_strlit("ended");
            }
            quiet(PipelineCommand::Nothing, false, e)
        },
        BusMessage::Error { error, debug } => {
            let text = match debug {
                Some(d) => {
                    let mut out = chars_of(error.as_str());
                    push_str_chars(&mut out, " (");
                    push_str_chars(&mut out, d.as_str());
                    push_str_chars(&mut out, ")");
                    string_from_chars(out.as_slice())
                },
                None => error.clone(),
            };
            let e = event(generation, "error", Some(text), None);
            proof {
                reveal_strlit("error");
            }
            BusReaction {
                command: PipelineCommand::Nothing,
                desired_playing: false,
                buffering_percent: None,
                event: e,
                stop_watching: true,
            }
        },
        BusMessage::Warning { error } => {
            let e = event(generation, "warning", Some(error.clone()), None);
            proof {
                reveal_strlit("warning");
            }
            quiet(PipelineCommand::Nothing, desired_playing, e)
        },
        BusMessage::Buffering { percent } => {
            let command = if *percent < 100 {
                PipelineCommand::Pause
            } else if desired_playing {
                PipelineCommand::Play
            } else {
                PipelineCommand::Nothing
            };
            let e = event(generation, "buffering", None, Some(*percent));
            proof {
                reveal_strlit("buffering");
            }
            BusReaction {
                command,
                desired_playing,
                buffering_percent: Some(*percent),
                event: e,
                stop_watching: false,
            }
        },
        BusMessage::PipelineStateChanged { current } => {
            let name = state_name(*current);
            let e = event(generation, "stateChanged", Some(name.to_string()), None);
            proof {
                reveal_strlit("stateChanged");
            }
            quiet(PipelineCommand::Nothing, desired_playing, e)
        },
        BusMessage::TracksChanged => {
            let e = event(generation, "tracksChanged", None, None);
            proof {
                reveal_strlit("tracksChanged");
            }
            quiet(PipelineCommand::Nothing, desired_playing, e)
        },
        BusMessage::Other => quiet(PipelineCommand::Nothing, desired_playing, None),
    }
}

// ----------------------------------------------------------------------
// Controls and the reported state
// ----------------------------------------------------------------------

/// How close to the end, in nanoseconds, a play starts over from the start.
pub const RESTART_MARGIN_NS: u64 = 250_000_000;

/// A play at `position_ns` of a source `duration_ns` long (each when the
/// decoder knows it) first seeks back to the start: it is at the end.
pub fn play_restarts(position_ns: Option<u64>, duration_ns: Option<u64>) -> (r: bool)
    ensures
        r == match (position_ns, duration_ns) {
            (Some(p), Some(d)) => p + RESTART_MARGIN_NS >= d,
            _ => false,
        },
{
    match (position_ns, duration_ns) {
        (Some(p), Some(d)) => p >= d || RESTART_MARGIN_NS >= d - p,
        _ => false,
    }
}

/// An audio track index must name one of the `count` tracks.
pub fn check_audio_track(index: i32, count: i32) -> (r: Result<(), String>)
    ensures
        r is Ok <==> 0 <= index < count,
        r matches Err(e) ==> e@ == "Audio track index is out of range"@,
{
    if index < 0 || index >= count {
        Err("Audio track index is out of range".to_string())
    } else {
        Ok(())
    }
}

/// A subtitle track index must name one of the `count` tracks, or be -1
/// for none.
pub fn check_subtitle_track(index: i32, count: i32) -> (r: Result<(), String>)
    ensures
        r is Ok <==> -1 <= index < count,
        r matches Err(e) ==> e@ == "Subtitle track index is out of range"@,
{
    if index < -1 || index >= count {
        Err("Subtitle track index is out of range".to_string())
    } else {
        Ok(())
    }
}

/// An external subtitle source, when one is given, must be playable.
pub fn check_subtitle_uri(uri: &Option<String>) -> (r: Result<(), String>)
    ensures
        r is Ok <==> match uri {
            Some(u) => playable_uri(u@),
            None => true,
        },
        r matches Err(e) ==> e@ == "Only HTTP(S) and file media sources are accepted"@,
{
    match uri {
        Some(u) => validate_uri(u.as_str()),
        None => Ok(()),
    }
}

pub open spec fn status_spec(state: Option<PipelineState>, desired_playing: bool, buffering: i32) -> Seq<char> {
    match state {
        None => "stopped"@,
        Some(PipelineState::Playing) => if desired_playing {
            "playing"@
        } else {
            "paused"@
        },
        Some(PipelineState::Paused) => if desired_playing && buffering < 100 {
            "buffering"@
        } else {
            "paused"@
        },
        Some(PipelineState::Ready) => "ready"@,
        Some(PipelineState::Null) => "stopped"@,
        Some(PipelineState::VoidPending) => "changing"@,
    }
}

/// The status the player reports: from the pipeline's state (none when no
/// media is open), whether playback is wanted, and the buffering percent.
pub fn playback_status(state: Option<PipelineState>, desired_playing: bool, buffering: i32) -> (r: &'static str)
    ensures
        r@ == status_spec(state, desired_playing, buffering),
{
    proof {
        reveal_strlit("stopped");
        reveal_strlit("playing");
        reveal_strlit("paused");
        reveal_strlit("buffering");
        reveal_strlit("ready");
        reveal_strlit("changing");
    }
    match state {
        None => "stopped",
        Some(PipelineState::Playing) => if desired_playing {
            "playing"
        } else {
            "paused"
        },
        Some(PipelineState::Paused) => if desired_playing && buffering < 100 {
            "buffering"
        } else {
            "paused"
        },
        Some(PipelineState::Ready) => "ready",
        Some(PipelineState::Null) => "stopped",
        Some(PipelineState::VoidPending) => "changing",
    }
}

/// The buffering percent reported: only while buffering is under way.
pub fn reported_buffering(buffering: i32) -> (r: Option<i32>)
    ensures
        r == (if 0 <= buffering < 100 {
            Some(buffering)
        } else {
            None::<i32>
        }),
{
    if 0 <= buffering && buffering < 100 {
        Some(buffering)
    } else {
        None
    }
}

} // verus!
