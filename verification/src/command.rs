//! What the app thread says to the audio thread, and what comes back.
//!
//! One ring buffer each way. Commands are small, so a push is a memcpy of a couple of words.
//! Nothing here allocates on either side.

use std::sync::Arc;

use vstd::prelude::*;

use crate::lane::Note;
use crate::sample::Sample;
use crate::seqs::extends;
use crate::shared::Shared;
use crate::single::Single;

verus! {

/// A note as the engine holds it: steps and MIDI pitch, sized down so [`Command`] stays small.
#[derive(Clone, Copy, Debug, PartialEq, Eq, Structural)]
pub struct EngineNote {
    pub step: u16,
    pub pitch: u8,
    pub velocity: u8,
    /// In steps. Nothing to do with how long a one-shot sounds.
    pub length: u16,
}

impl EngineNote {
    /// The engine's note for a note of a pattern.
    pub open spec fn of(note: Note) -> EngineNote {
        EngineNote {
            step: note.step as u16,
            pitch: note.pitch,
            velocity: note.velocity,
            length: note.length as u16,
        }
    }

    /// A pattern's note, sized down. Only the low sixteen bits of its step and its length are
    /// kept, which is all of them for a note inside a pattern the engine will play.
    pub fn from_note(note: Note) -> (r: EngineNote)
        ensures
            r == EngineNote::of(note),
    {
        EngineNote {
            step: note.step as u16,
            pitch: note.pitch,
            velocity: note.velocity,
            length: note.length as u16,
        }
    }
}

/// App thread to audio thread. Never blocks either side.
///
/// Patterns and tracks are addressed by their id, which is also their slot, so nothing
/// here ever has to say "the pattern that used to be third".
#[allow(inconsistent_fields)]
#[derive(Debug)]
pub enum Command {
    /// Start or stop the transport. Stopping leaves ringing voices to finish.
    SetPlaying(bool),
    /// Jump to the top of what is playing.
    Rewind,
    /// A tempo that is not a number is no tempo, and changes nothing.
    SetBpm(Single),
    SetMasterGain(Single),
    /// Claim a slot at a starting gain. A track with no sample is silent but keeps its
    /// notes. The gain is set, not slid to: a track that has just appeared has no sound of
    /// its own to click against, and fading it in would only make its first hit quiet.
    AddTrack { track: u16, gain: Single },
    /// Free a slot, release anything it was holding, and forget its notes in every pattern.
    RemoveTrack { track: u16 },
    SetTrackSample { track: u16, sample: Option<Arc<Sample>> },
    SetTrackGain { track: u16, gain: Single },
    SetTrackMuted { track: u16, muted: bool },
    SetTrackSoloed { track: u16, soloed: bool },
    /// Make a track an instrument in one pattern, or a one-shot again.
    SetPatternPitched { pattern: u16, track: u16, pitched: bool },
    /// How many steps a pattern is. Applies to the clock straight away if that pattern is
    /// the one playing.
    SetPatternSteps { pattern: u16, steps: u32 },
    /// Add or replace the note at this step and pitch, in one pattern.
    SetNote { pattern: u16, track: u16, note: EngineNote },
    ClearNote { pattern: u16, track: u16, step: u16, pitch: u8 },
    /// Forget one track's notes in one pattern.
    ClearNotes { pattern: u16, track: u16 },
    /// Forget everything in a pattern, for a pattern that has been deleted.
    ClearPattern { pattern: u16 },
    /// The pattern the editor has open. It is what plays, on a loop, in pattern mode.
    SetActivePattern(u16),
    /// True to play the song, false to loop the open pattern. The UI ties this to which
    /// view you are looking at.
    SetSongMode(bool),
    /// How many steps of the song are in use.
    SetSongLen(u32),
    /// Take everything out of the song.
    ClearSong,
    /// Start a block of a pattern at a step of the song, filling so many steps.
    PlacePattern { pattern: u16, step: u32, length: u32 },
    /// Take out the block of a pattern that starts at a step of the song.
    UnplacePattern { pattern: u16, step: u32 },
    /// Jump the song to a step and start from there.
    SeekSong(u32),
    /// Play a track's sample right now, for clicking a row.
    Audition { track: u16, pitch: u8, velocity: u8 },
    /// Play a sample that belongs to no track, for clicking the browser.
    Preview { sample: Arc<Sample>, gain: Single },
    /// Fade everything out. The panic button.
    StopAll,
}

/// Audio thread to app thread: things whose destructors must not run on the audio thread.
///
/// Dropping the last `Arc<Sample>` frees a few megabytes, and `free` can take a lock. So
/// the audio thread hands ownership back and the app thread drops it at its leisure.
#[derive(Debug)]
pub enum Trash {
    Sample(Arc<Sample>),
}

/// Commands the ring buffer holds before the app thread has to wait. A callback drains the
/// lot, so this only has to cover one burst. Opening a project sends one per note in the
/// whole song, which is more than fits: the app thread waits for room in that one case,
/// which it can afford to do and the audio thread never notices.
pub const COMMAND_CAPACITY: usize = 4096;

/// Room for returned samples. Overflowing means dropping on the audio thread, which is
/// counted in [`Shared::dropped_on_audio_thread`].
pub const TRASH_CAPACITY: usize = 512;

// --- the ring buffers ---------------------------------------------------------

/// The writing end of a ring buffer, `rtrb::Producer`.
#[verifier::external_type_specification]
#[verifier::external_body]
#[verifier::reject_recursive_types(T)]
pub struct ExProducer<T>(rtrb::Producer<T>);

/// The reading end of a ring buffer, `rtrb::Consumer`.
#[verifier::external_type_specification]
#[verifier::external_body]
#[verifier::reject_recursive_types(T)]
pub struct ExConsumer<T>(rtrb::Consumer<T>);

/// Everything put into the return queue through its writing end so far, in order.
pub uninterp spec fn returned(tx: rtrb::Producer<Trash>) -> Seq<Trash>;

/// Everything put into the command queue through its writing end so far, in order.
pub uninterp spec fn sent(tx: rtrb::Producer<Command>) -> Seq<Command>;

/// Everything taken out of the command queue through its reading end so far, in order.
pub uninterp spec fn taken(rx: rtrb::Consumer<Command>) -> Seq<Command>;

/// Whether the last value offered to the return queue found it full.
pub uninterp spec fn returns_full(tx: rtrb::Producer<Trash>) -> bool;

/// Whether the last value offered to the command queue found it full.
pub uninterp spec fn commands_full(tx: rtrb::Producer<Command>) -> bool;

/// Whether the command queue was found empty the last time it was asked for a command.
pub uninterp spec fn commands_out(rx: rtrb::Consumer<Command>) -> bool;

/// How many times the command queue has been asked for a command through its reading end.
pub uninterp spec fn looked(rx: rtrb::Consumer<Command>) -> nat;

/// `rtrb::Producer::push` on the return queue: either the queue takes the value, and it is the
/// last thing put in, or the queue is full, nothing is put in, and the value comes back. Which
/// of the two depends on how much the other thread has taken out.
#[verifier::external_body]
fn push_trash(tx: &mut rtrb::Producer<Trash>, value: Trash) -> (r: Result<(), Trash>)
    ensures
        match r {
            Ok(()) => returned(*final(tx)) == returned(*old(tx)).push(value) && !returns_full(
                *final(tx),
            ),
            Err(back) => back == value && returned(*final(tx)) == returned(*old(tx))
                && returns_full(*final(tx)),
        },
{
    match tx.push(value) {
        Ok(()) => Ok(()),
        Err(rtrb::PushError::Full(back)) => Err(back),
    }
}

/// `rtrb::Producer::push` on the command queue: either the queue takes the value, and it is the
/// last thing put in, or the queue is full, nothing is put in, and the value comes back. Which
/// of the two depends on how much the other thread has taken out.
#[verifier::external_body]
fn push_command(tx: &mut rtrb::Producer<Command>, value: Command) -> (r: Result<(), Command>)
    ensures
        match r {
            Ok(()) => sent(*final(tx)) == sent(*old(tx)).push(value) && !commands_full(*final(tx)),
            Err(back) => back == value && sent(*final(tx)) == sent(*old(tx)) && commands_full(
                *final(tx),
            ),
        },
{
    match tx.push(value) {
        Ok(()) => Ok(()),
        Err(rtrb::PushError::Full(back)) => Err(back),
    }
}

/// `rtrb::Consumer::pop` on the command queue: the value it gives is the last thing taken out,
/// and when it gives none the queue is empty and nothing is taken out. Either way it has been
/// asked once more. What comes, and whether anything does, depends on what the other thread has
/// put in.
#[verifier::external_body]
pub(crate) fn pop_command(rx: &mut rtrb::Consumer<Command>) -> (r: Option<Command>)
    ensures
        match r {
            Some(value) => taken(*final(rx)) == taken(*old(rx)).push(value) && !commands_out(
                *final(rx),
            ),
            None => taken(*final(rx)) == taken(*old(rx)) && commands_out(*final(rx)),
        },
        looked(*final(rx)) == looked(*old(rx)) + 1,
{
    rx.pop().ok()
}

/// `Arc::clone`: another pointer to the same value.
#[verifier::external_body]
pub(crate) fn share<T>(it: &Arc<T>) -> (r: Arc<T>)
    ensures
        r == *it,
{
    Arc::clone(it)
}

/// What has become of the samples the audio thread is done with.
#[verifier::ext_equal]
pub struct Ledger {
    /// Every one that was handed over, in order.
    pub handed: Seq<Arc<Sample>>,
    /// What the app thread can find in the return queue, or has found.
    pub returned: Seq<Trash>,
    /// Those there was no room for.
    pub lost: Seq<Arc<Sample>>,
}

impl Ledger {
    /// With one more handed over.
    pub open spec fn with(self, sample: Arc<Sample>, full: bool) -> Ledger {
        if full {
            Ledger { handed: self.handed.push(sample), lost: self.lost.push(sample), ..self }
        } else {
            Ledger {
                handed: self.handed.push(sample),
                returned: self.returned.push(Trash::Sample(sample)),
                ..self
            }
        }
    }

    /// How many more times a sample was handed over than it was returned or lost.
    pub open spec fn owing(self, s: Arc<Sample>) -> int {
        self.handed.to_multiset().count(s) - self.returned.to_multiset().count(Trash::Sample(s))
            - self.lost.to_multiset().count(s)
    }

    /// What has been handed over since is what has been returned and lost since, together.
    pub open spec fn settles(self, now: Ledger) -> bool {
        &&& extends(now.handed, self.handed)
        &&& extends(now.returned, self.returned)
        &&& extends(now.lost, self.lost)
        &&& forall|s: Arc<Sample>| #[trigger] now.owing(s) == self.owing(s)
    }
}

/// Handing one more over leaves nothing owing.
proof fn lemma_settled(l: Ledger, sample: Arc<Sample>, full: bool)
    ensures
        l.settles(l.with(sample, full)),
{
    let now = l.with(sample, full);
    l.handed.to_multiset_ensures();
    l.returned.to_multiset_ensures();
    l.lost.to_multiset_ensures();
    assert(l.handed.push(sample).to_multiset() =~= l.handed.to_multiset().insert(sample));
    assert(l.lost.push(sample).to_multiset() =~= l.lost.to_multiset().insert(sample));
    let back = Trash::Sample(sample);
    assert(l.returned.push(back).to_multiset() =~= l.returned.to_multiset().insert(back));
    assert forall|s: Arc<Sample>| #[trigger] now.owing(s) == l.owing(s) by {
        assert((Trash::Sample(s) == back) == (s == sample));
    }
}

/// Wraps the return queue so the audio thread can hand things back without caring whether
/// anyone is listening.
pub struct TrashBin {
    tx: rtrb::Producer<Trash>,
    shared: Arc<Shared>,
    handed: Ghost<Seq<Arc<Sample>>>,
    lost: Ghost<Seq<Arc<Sample>>>,
}

impl View for TrashBin {
    type V = Seq<Arc<Sample>>;

    /// Every sample that has been handed over, in order.
    closed spec fn view(&self) -> Seq<Arc<Sample>> {
        self.handed@
    }
}

impl TrashBin {
    /// What the app thread can find in the return queue, or has found.
    pub closed spec fn returned(&self) -> Seq<Trash> {
        returned(self.tx)
    }

    /// Whether there was no room in the return queue for the last sample.
    pub closed spec fn overflowing(&self) -> bool {
        returns_full(self.tx)
    }

    /// Those there was no room for, in order.
    pub closed spec fn lost(&self) -> Seq<Arc<Sample>> {
        self.lost@
    }

    /// What has become of everything handed over.
    pub open spec fn ledger(&self) -> Ledger {
        Ledger { handed: self@, returned: self.returned(), lost: self.lost() }
    }

    pub fn new(tx: rtrb::Producer<Trash>, shared: Arc<Shared>) -> (r: Self)
        ensures
            r@ == Seq::<Arc<Sample>>::empty(),
            r.returned() == returned(tx),
            r.lost() == Seq::<Arc<Sample>>::empty(),
    {
        TrashBin { tx, shared, handed: Ghost(Seq::empty()), lost: Ghost(Seq::empty()) }
    }

    /// Hand a sample back to the app thread. If the queue is full the `Arc` is dropped here, which
    /// is only a real cost when it was the last reference. It mostly is not, because the sample
    /// cache on the other side holds one for as long as the sample is loaded. The count gets
    /// recorded so the queue can be sized honestly.
    pub fn put(&mut self, sample: Arc<Sample>)
        ensures
            final(self)@ == old(self)@.push(sample),
            final(self).ledger() == old(self).ledger().with(sample, final(self).overflowing()),
            old(self).ledger().settles(final(self).ledger()),
    {
        proof {
            lemma_settled(self.ledger(), sample, true);
            lemma_settled(self.ledger(), sample, false);
            self.handed@ = self.handed@.push(sample);
        }
        match push_trash(&mut self.tx, Trash::Sample(sample)) {
            Ok(()) => {},
            Err(_) => {
                self.shared.note_dropped();
                proof {
                    self.lost@ = self.lost@.push(sample);
                }
            },
        }
    }
}

// --- the app thread's end -----------------------------------------------------

/// What became of a command that was offered to the queue.
pub enum Offer {
    /// It is on its way.
    Sent,
    /// There was no room and it was given up on.
    GivenUp,
    /// There was no room, and it is worth waiting a moment and offering it again.
    Wait(Command),
}

/// The app thread's end of the command queue.
///
/// The queue is thousands deep and drained every callback, so a full one means either the audio
/// device has stopped or a whole project is going across at once. Waiting a moment covers the
/// second, where room appears as soon as the next callback runs. Giving up covers the first,
/// because blocking the UI would not bring the device back — and once one command has been given
/// up on, the rest do not wait at all.
pub struct Sender {
    tx: rtrb::Producer<Command>,
    stuck: bool,
}

impl Sender {
    /// Everything that has gone across.
    pub closed spec fn sent(&self) -> Seq<Command> {
        sent(self.tx)
    }

    /// Whether there was no room in the queue for the last command.
    pub closed spec fn full(&self) -> bool {
        commands_full(self.tx)
    }

    /// Set when a command had to be dropped. While it is set nothing waits for room.
    pub closed spec fn stuck(&self) -> bool {
        self.stuck
    }

    pub fn new(tx: rtrb::Producer<Command>) -> (r: Self)
        ensures
            r.sent() == sent(tx),
            !r.stuck(),
    {
        Sender { tx, stuck: false }
    }

    /// Whether a command offered now would be waited with.
    pub fn is_patient(&self) -> (r: bool)
        ensures
            r == !self.stuck(),
    {
        !self.stuck
    }

    /// Offer the queue a command. `patient` is whether the sender was patient when it started
    /// on this command, and `late` whether this command has waited long enough.
    pub fn offer(&mut self, command: Command, patient: bool, late: bool) -> (r: Offer)
        ensures
            match r {
                Offer::Sent => !final(self).full() && final(self).sent() == old(self).sent().push(
                    command,
                ) && !final(self).stuck(),
                Offer::GivenUp => final(self).full() && final(self).sent() == old(self).sent()
                    && final(self).stuck() && (!patient || late),
                Offer::Wait(back) => final(self).full() && final(self).sent() == old(self).sent()
                    && final(self).stuck() == old(self).stuck() && back == command && patient
                    && !late,
            },
    {
        match push_command(&mut self.tx, command) {
            Ok(()) => {
                self.stuck = false;
                Offer::Sent
            },
            Err(back) => {
                if !patient || late {
                    self.stuck = true;
                    Offer::GivenUp
                } else {
                    Offer::Wait(back)
                }
            },
        }
    }
}

} // verus!
