//! From decoded audio to a fingerprint.

use crate::preset::{is_preset, preset};
use rusty_chromaprint::{Configuration, Fingerprinter, ResetError};
use vstd::prelude::*;

verus! {

/// `rusty_chromaprint::Fingerprinter`, which takes in samples and makes a fingerprint of them.
#[verifier::external_type_specification]
#[verifier::external_body]
pub struct ExFingerprinter(Fingerprinter);

/// The samples that a fingerprinter has taken in since it was started.
pub uninterp spec fn fed_samples(printer: Fingerprinter) -> Seq<i16>;

/// How many channels a fingerprinter was started for; zero before it is started.
pub uninterp spec fn started_channels(printer: Fingerprinter) -> u32;

/// Which sample rate a fingerprinter was started for; zero before it is started.
pub uninterp spec fn started_rate(printer: Fingerprinter) -> u32;

/// Whether a fingerprinter was told to finish after the last samples that it was given.
pub uninterp spec fn is_flushed(printer: Fingerprinter) -> bool;

/// The items of the fingerprint that a fingerprinter has made so far.
pub uninterp spec fn printed_items(printer: Fingerprinter) -> Seq<u32>;

/// How many frames of 4096 samples there are in a stretch of audio, if each starts 1365 samples
/// after the one before.
pub open spec fn frame_count(samples: nat) -> nat {
    if samples < 4096 {
        0
    } else {
        ((samples - 4096) / 1365 + 1) as nat
    }
}

/// How many items the fingerprint of a stretch of audio has that needs no resampling: the filters
/// take in nineteen frames before the first item comes out.
pub open spec fn item_count(samples: nat) -> nat {
    if frame_count(samples) < 19 {
        0
    } else {
        (frame_count(samples) - 19) as nat
    }
}

/// The sample rate at which fingerprints are made; audio of any other rate is resampled.
pub const FINGERPRINT_RATE: u32 = 11025;

/// Why a fingerprinter cannot be started.
#[derive(Clone, Copy, PartialEq, Eq, Structural, Debug)]
pub enum StartRefusal {
    NoChannels,
    SampleRateTooLow,
    CannotResample,
}

/// `Fingerprinter::new`: nothing is taken in before it is started.
#[verifier::external_body]
fn new_fingerprinter(configuration: &Configuration) -> (r: Fingerprinter)
    requires
        is_preset(*configuration),
    ensures
        started_channels(r) == 0,
        started_rate(r) == 0,
        fed_samples(r) == Seq::<i16>::empty(),
        printed_items(r) == Seq::<u32>::empty(),
{
    Fingerprinter::new(configuration)
}

/// `Fingerprinter::start`: refuses audio without channels, and then a sample rate of 1000 or less.
/// Every other rate can be resampled, since the ratio of two positive rates is positive.
#[verifier::external_body]
fn start_fingerprinter(printer: &mut Fingerprinter, sample_rate: u32, channels: u32) -> (r: Result<
    (),
    StartRefusal,
>)
    requires
        started_channels(*old(printer)) == 0,
    ensures
        match r {
            Ok(_) => channels != 0 && sample_rate > 1000 && started_channels(*final(printer))
                == channels && started_rate(*final(printer)) == sample_rate && !is_flushed(
                *final(printer),
            ) && fed_samples(*final(printer)) == Seq::<i16>::empty() && printed_items(
                *final(printer),
            ) == Seq::<u32>::empty(),
            Err(refusal) => if channels == 0 {
                refusal == StartRefusal::NoChannels
            } else {
                sample_rate <= 1000 && refusal == StartRefusal::SampleRateTooLow
            },
        },
{
    match printer.start(sample_rate, channels) {
        Ok(()) => Ok(()),
        Err(ResetError::NoChannels) => Err(StartRefusal::NoChannels),
        Err(ResetError::SampleRateTooLow) => Err(StartRefusal::SampleRateTooLow),
        Err(ResetError::CannotResample(_)) => Err(StartRefusal::CannotResample),
    }
}

/// `Fingerprinter::consume`: takes in interleaved samples, which stay buffered in part. It panics
/// unless they are whole frames, and the sum over a frame of more than 65536 channels may overflow.
#[verifier::external_body]
fn feed(printer: &mut Fingerprinter, data: &Vec<i16>)
    requires
        0 < started_channels(*old(printer)) <= 65536,
        data@.len() % started_channels(*old(printer)) as nat == 0,
    ensures
        fed_samples(*final(printer)) == fed_samples(*old(printer)) + data@,
        started_channels(*final(printer)) == started_channels(*old(printer)),
        started_rate(*final(printer)) == started_rate(*old(printer)),
        !is_flushed(*final(printer)),
{
    printer.consume(data)
}

/// `Fingerprinter::finish`: works off what is still buffered and takes in nothing new. The items are
/// complete then. Without samples there are none; of audio that needs no resampling their number
/// follows from the number of samples. Which ones they are is left unsaid, as is their number after
/// resampling: the resampler and the transform are rounded differently by different processors.
#[verifier::external_body]
fn flush(printer: &mut Fingerprinter)
    ensures
        is_flushed(*final(printer)),
        fed_samples(*final(printer)) == fed_samples(*old(printer)),
        started_channels(*final(printer)) == started_channels(*old(printer)),
        started_rate(*final(printer)) == started_rate(*old(printer)),
        fed_samples(*old(printer)).len() == 0 ==> printed_items(*final(printer)).len() == 0,
        started_rate(*old(printer)) == 11025 && started_channels(*old(printer)) > 0
            ==> printed_items(*final(printer)).len() == item_count(
            fed_samples(*old(printer)).len() / started_channels(*old(printer)) as nat,
        ),
{
    printer.finish()
}

/// `Fingerprinter::fingerprint`: the items that the fingerprinter has made so far.
#[verifier::external_body]
fn read_fingerprint(printer: &Fingerprinter) -> (r: Vec<u32>)
    ensures
        r@ == printed_items(*printer),
{
    printer.fingerprint().to_vec()
}

/// What a container says of one of its tracks.
#[derive(Clone, Copy, Debug)]
pub struct TrackInfo {
    pub id: u32,
    /// Whether the codec of the track is known.
    pub has_codec: bool,
    pub sample_rate: Option<u32>,
    pub channels: Option<u8>,
}

/// Why a file has no fingerprint.
#[derive(Clone, Copy, PartialEq, Eq, Structural, Debug)]
pub enum FingerprintError {
    NoSupportedTrack,
    MissingSampleRate,
    MissingChannels,
    Initializing(StartRefusal),
}

impl FingerprintError {
    /// The error in words.
    pub fn describe(&self) -> (r: &'static str)
        ensures
            r@ == (match *self {
                FingerprintError::NoSupportedTrack => "no supported audio tracks"@,
                FingerprintError::MissingSampleRate => "missing sample rate"@,
                FingerprintError::MissingChannels => "missing audio channels"@,
                FingerprintError::Initializing(_) => "initializing fingerprinter"@,
            }),
    {
        match self {
            FingerprintError::NoSupportedTrack => "no supported audio tracks",
            FingerprintError::MissingSampleRate => "missing sample rate",
            FingerprintError::MissingChannels => "missing audio channels",
            FingerprintError::Initializing(_) => "initializing fingerprinter",
        }
    }
}

/// Finds the first track whose codec is known.
pub fn select_track(tracks: &Vec<TrackInfo>) -> (r: Result<usize, FingerprintError>)
    ensures
        match r {
            Ok(i) => i < tracks@.len() && tracks@[i as int].has_codec && forall|j: int|
                0 <= j < i ==> !(#[trigger] tracks@[j]).has_codec,
            Err(e) => e == FingerprintError::NoSupportedTrack && forall|j: int|
                0 <= j < tracks@.len() ==> !(#[trigger] tracks@[j]).has_codec,
        },
{
    for i in 0..tracks.len()
        invariant
            forall|j: int| 0 <= j < i ==> !(#[trigger] tracks@[j]).has_codec,
    {
        if tracks[i].has_codec {
            return Ok(i);
        }
    }
    Err(FingerprintError::NoSupportedTrack)
}

/// What has happened to the stream of audio.
#[derive(Debug)]
pub enum StreamEvent {
    /// There are no more packets to be had.
    EndOfStream,
    /// A packet was read.
    Packet { track_id: u32 },
    /// A packet was decoded to interleaved samples.
    Samples(Vec<i16>),
    /// A packet could not be decoded.
    DamagedPacket,
    /// The decoder cannot go on.
    DecoderFailed,
}

/// What is to be done next with the stream of audio.
#[derive(Debug)]
pub enum StreamAction {
    ReadPacket,
    DecodePacket,
    /// Nothing: here is the fingerprint.
    Finished(Vec<u32>),
}

/// A fingerprint in the making.
#[verifier::ext_equal]
pub struct RunModel {
    pub track_id: u32,
    /// The sample rate that the fingerprinter was started for.
    pub sample_rate: u32,
    /// The number of channels that the fingerprinter was started for.
    pub channels: u32,
    /// The samples that the fingerprinter has taken in.
    pub samples: Seq<i16>,
    /// Whether it was told to finish after the last of them.
    pub flushed: bool,
    /// The items of the fingerprint that the fingerprinter has made so far.
    pub items: Seq<u32>,
    pub finished: bool,
}

/// An event as a mathematical value.
pub enum EventModel {
    EndOfStream,
    Packet { track_id: u32 },
    Samples(Seq<i16>),
    DamagedPacket,
    DecoderFailed,
}

impl View for StreamEvent {
    type V = EventModel;

    open spec fn view(&self) -> EventModel {
        match *self {
            StreamEvent::EndOfStream => EventModel::EndOfStream,
            StreamEvent::Packet { track_id } => EventModel::Packet { track_id },
            StreamEvent::Samples(samples) => EventModel::Samples(samples@),
            StreamEvent::DamagedPacket => EventModel::DamagedPacket,
            StreamEvent::DecoderFailed => EventModel::DecoderFailed,
        }
    }
}

/// What an event makes of a fingerprint in the making, if the fingerprinter has made the given items
/// afterwards. An event that the fingerprinter has no part in changes nothing at all.
pub open spec fn after_event(run: RunModel, event: EventModel, items: Seq<u32>) -> RunModel {
    match event {
        EventModel::EndOfStream => RunModel { flushed: true, items, finished: true, ..run },
        EventModel::Packet { .. } => run,
        EventModel::Samples(samples) => RunModel {
            samples: run.samples + samples,
            flushed: false,
            items,
            ..run
        },
        EventModel::DamagedPacket => run,
        EventModel::DecoderFailed => RunModel { flushed: true, items, finished: true, ..run },
    }
}

/// Whether the items that a fingerprinter has made can be all there are: none without samples, and
/// as many as the samples allow where nothing is resampled.
pub open spec fn has_all_items(run: RunModel) -> bool {
    &&& run.samples.len() == 0 ==> run.items.len() == 0
    &&& run.sample_rate == FINGERPRINT_RATE ==> run.items.len() == item_count(
        run.samples.len() / run.channels as nat,
    )
}

/// Whether an action hands out the fingerprint: the items that the fingerprinter has made of all
/// samples.
pub open spec fn is_finish(after: RunModel, action: StreamAction) -> bool {
    &&& action matches StreamAction::Finished(fingerprint) && fingerprint@ == after.items
    &&& after.flushed
    &&& has_all_items(after)
}

/// Whether an action is the one that an event calls for: packets of other tracks are passed over,
/// a damaged packet is skipped, and whatever else goes wrong ends the stream.
pub open spec fn is_answer(
    run: RunModel,
    event: EventModel,
    after: RunModel,
    action: StreamAction,
) -> bool {
    match event {
        EventModel::EndOfStream => is_finish(after, action),
        EventModel::Packet { track_id } => if track_id == run.track_id {
            action is DecodePacket
        } else {
            action is ReadPacket
        },
        EventModel::Samples(_) => action is ReadPacket,
        EventModel::DamagedPacket => action is ReadPacket,
        EventModel::DecoderFailed => is_finish(after, action),
    }
}

/// A fingerprint in the making.
pub struct FingerprintRun {
    printer: Fingerprinter,
    track_id: u32,
    channels: u32,
    finished: bool,
}

impl View for FingerprintRun {
    type V = RunModel;

    closed spec fn view(&self) -> RunModel {
        RunModel {
            track_id: self.track_id,
            sample_rate: started_rate(self.printer),
            channels: started_channels(self.printer),
            samples: fed_samples(self.printer),
            flushed: is_flushed(self.printer),
            items: printed_items(self.printer),
            finished: self.finished,
        }
    }
}

impl FingerprintRun {
    /// Whether the fingerprinter has been started for as many channels as are known.
    pub closed spec fn is_started(self) -> bool {
        &&& self.channels == started_channels(self.printer)
        &&& 0 < self.channels <= 255
    }

    /// Starts on a track.
    pub fn start(track: &TrackInfo) -> (r: Result<FingerprintRun, FingerprintError>)
        ensures
            match r {
                Ok(run) => {
                    &&& track.sample_rate is Some && track.sample_rate->0 > 1000
                    &&& track.channels is Some && track.channels->0 > 0
                    &&& run.is_started()
                    &&& run@ == (RunModel {
                        track_id: track.id,
                        sample_rate: track.sample_rate->0,
                        channels: track.channels->0 as u32,
                        samples: Seq::empty(),
                        flushed: false,
                        items: Seq::empty(),
                        finished: false,
                    })
                },
                Err(e) => if track.sample_rate is None {
                    e == FingerprintError::MissingSampleRate
                } else if track.channels is None {
                    e == FingerprintError::MissingChannels
                } else if track.channels->0 == 0 {
                    e == FingerprintError::Initializing(StartRefusal::NoChannels)
                } else {
                    track.sample_rate->0 <= 1000 && e == FingerprintError::Initializing(
                        StartRefusal::SampleRateTooLow,
                    )
                },
            },
    {
        let sample_rate: u32 = match track.sample_rate {
            Some(rate) => rate,
            None => {
                return Err(FingerprintError::MissingSampleRate);
            },
        };
        let channels: u32 = match track.channels {
            Some(count) => count as u32,
            None => {
                return Err(FingerprintError::MissingChannels);
            },
        };
        let configuration = preset();
        let mut printer = new_fingerprinter(&configuration);
        match start_fingerprinter(&mut printer, sample_rate, channels) {
            Ok(()) => Ok(FingerprintRun { printer, track_id: track.id, channels, finished: false }),
            Err(refusal) => Err(FingerprintError::Initializing(refusal)),
        }
    }

    /// The number of channels: samples come in multiples of it.
    pub fn get_channels(&self) -> (r: u32)
        requires
            self.is_started(),
        ensures
            r == self@.channels,
    {
        self.channels
    }

    /// Takes in what has happened and says what is to be done next.
    pub fn step(&mut self, event: StreamEvent) -> (r: StreamAction)
        requires
            old(self).is_started(),
            !old(self)@.finished,
            event@ matches EventModel::Samples(samples) ==> samples.len() % old(
                self,
            )@.channels as nat == 0,
        ensures
            final(self).is_started(),
            final(self)@ == after_event(old(self)@, event@, final(self)@.items),
            is_answer(old(self)@, event@, final(self)@, r),
    {
        match event {
            StreamEvent::EndOfStream => self.end(),
            StreamEvent::Packet { track_id } => if track_id == self.track_id {
                StreamAction::DecodePacket
            } else {
                StreamAction::ReadPacket
            },
            StreamEvent::Samples(samples) => {
                feed(&mut self.printer, &samples);
                StreamAction::ReadPacket
            },
            StreamEvent::DamagedPacket => StreamAction::ReadPacket,
            StreamEvent::DecoderFailed => self.end(),
        }
    }

    fn end(&mut self) -> (r: StreamAction)
        requires
            old(self).is_started(),
        ensures
            final(self).is_started(),
            final(self)@ == (RunModel {
                flushed: true,
                items: final(self)@.items,
                finished: true,
                ..old(self)@
            }),
            is_finish(final(self)@, r),
    {
        flush(&mut self.printer);
        self.finished = true;
        StreamAction::Finished(read_fingerprint(&self.printer))
    }
}

/// What a sequence of events makes of a fingerprint in the making. Each event comes with the items
/// that the fingerprinter has made after it.
pub open spec fn after_events(run: RunModel, events: Seq<(EventModel, Seq<u32>)>) -> RunModel
    decreases events.len(),
{
    if events.len() == 0 {
        run
    } else {
        after_event(
            after_events(run, events.drop_last()),
            events.last().0,
            events.last().1,
        )
    }
}

proof fn lemma_events_split(
    run: RunModel,
    a: Seq<(EventModel, Seq<u32>)>,
    b: Seq<(EventModel, Seq<u32>)>,
)
    ensures
        after_events(run, a + b) == after_events(after_events(run, a), b),
    decreases b.len(),
{
    if b.len() == 0 {
        assert(a + b =~= a);
    } else {
        assert((a + b).drop_last() =~= a + b.drop_last());
        lemma_events_split(run, a, b.drop_last());
    }
}

/// Packets of other tracks and damaged packets leave no trace: after a stream with one of them the
/// fingerprinter has taken in the same samples and made the same items as after the stream without
/// it.
pub proof fn law_skipped_packets_leave_no_trace(
    run: RunModel,
    events: Seq<(EventModel, Seq<u32>)>,
    i: int,
)
    requires
        0 <= i < events.len(),
        events[i].0 is Packet || events[i].0 is DamagedPacket,
    ensures
        after_events(run, events.remove(i)) == after_events(run, events),
{
    let a = events.take(i);
    let at = seq![events[i]];
    let b = events.skip(i + 1);
    assert((a + at) + b =~= events);
    assert(a + b =~= events.remove(i));
    lemma_events_split(run, a + at, b);
    lemma_events_split(run, a, b);
    assert((a + at).drop_last() =~= a);
    assert((a + at).last() == events[i]);
}

/// The samples of a sequence of events, in their order.
pub open spec fn decoded_samples(events: Seq<(EventModel, Seq<u32>)>) -> Seq<i16>
    decreases events.len(),
{
    if events.len() == 0 {
        Seq::empty()
    } else {
        match events.last().0 {
            EventModel::Samples(samples) => decoded_samples(events.drop_last()) + samples,
            _ => decoded_samples(events.drop_last()),
        }
    }
}

/// Whatever happens to a stream, what the fingerprinter has taken in is what was decoded, in the
/// order of the packets, at the rate and for the channels that it was started for.
pub proof fn law_all_samples_are_fed(run: RunModel, events: Seq<(EventModel, Seq<u32>)>)
    ensures
        after_events(run, events).samples == run.samples + decoded_samples(events),
        after_events(run, events).sample_rate == run.sample_rate,
        after_events(run, events).channels == run.channels,
    decreases events.len(),
{
    if events.len() > 0 {
        law_all_samples_are_fed(run, events.drop_last());
        assert(after_events(run, events).samples =~= run.samples + decoded_samples(events));
    } else {
        assert(run.samples + decoded_samples(events) =~= run.samples);
    }
}

/// What is done about an event. A packet is decoded exactly if it is of the track; samples are taken
/// in behind those there are; a damaged packet changes nothing; after each of these the next packet
/// is read. The end of the stream and a broken decoder give out the fingerprint that was made of all
/// samples.
pub proof fn law_events_are_answered(
    run: RunModel,
    event: EventModel,
    after: RunModel,
    action: StreamAction,
)
    requires
        after == after_event(run, event, after.items),
        is_answer(run, event, after, action),
    ensures
        after.track_id == run.track_id,
        after.sample_rate == run.sample_rate,
        after.channels == run.channels,
        match event {
            EventModel::Packet { track_id } => {
                &&& after == run
                &&& action is DecodePacket <==> track_id == run.track_id
                &&& action is ReadPacket <==> track_id != run.track_id
            },
            EventModel::Samples(samples) => {
                &&& action is ReadPacket
                &&& after.samples.len() == run.samples.len() + samples.len()
                &&& run.samples.is_prefix_of(after.samples)
                &&& samples.is_suffix_of(after.samples)
                &&& !after.flushed
                &&& after.finished == run.finished
            },
            EventModel::DamagedPacket => after == run && action is ReadPacket,
            _ => {
                &&& action matches StreamAction::Finished(fingerprint)
                &&& fingerprint@ == after.items
                &&& after.finished
                &&& after.flushed
                &&& after.samples == run.samples
                &&& run.samples.len() == 0 ==> fingerprint@.len() == 0
            },
        },
{
    if let EventModel::Samples(samples) = event {
        assert(run.samples.is_prefix_of(run.samples + samples));
        assert(samples.is_suffix_of(run.samples + samples));
    }
}

/// How long the fingerprint of audio is that needs no resampling: it has a given number of items
/// more than none exactly if eighteen frames and that many more fit into the samples, and not one
/// frame more, where a frame takes 4096 samples and starts 1365 samples after the one before.
pub proof fn law_fingerprint_length(
    run: RunModel,
    after: RunModel,
    event: EventModel,
    action: StreamAction,
    items: nat,
)
    requires
        after == after_event(run, event, after.items),
        is_answer(run, event, after, action),
        event is EndOfStream || event is DecoderFailed,
        run.sample_rate == 11025,
        run.channels > 0,
        items > 0,
    ensures
        action->Finished_0@.len() == items <==> ({
            let samples = run.samples.len() / run.channels as nat;
            4096 + 1365 * (items + 18) <= samples < 4096 + 1365 * (items + 19)
        }),
{
}

} // verus!
