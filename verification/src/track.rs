//! The track sequencer: unrolls one channel of the piano roll into a linear
//! timeline of note events.
//!
//! The sequencer walks the columns from the first.  At each column it
//! releases the pitches that sound, attacks the pitches of the column, lets
//! one time step pass and asks the repeat actions of the column where to go
//! on.

use crate::error::ConvertError;
use crate::event::{MidiEventType, MidiMetaEventType};
use crate::pitch::{ascending, PitchSet};
use crate::repeat::{after_visit, next_column, plan_view, visit_column, RepeatEnd};
use crate::roll::lane_view;
use crate::sheet::TrackInfo;
use vstd::prelude::*;

verus! {

/// Ticks per quarter note.
pub const DELTATIME: u32 = 96;

/// Ticks per column: a sixteenth note.
pub const DELTATIME_PER_BLOCK: u32 = 24;

/// The most columns that a walk can visit before its running tick leaves
/// the 32-bit range.
pub const MAX_VISITS: u32 = 178_956_970;

/// The state of a walk.
pub struct Playhead {
    /// The column to visit next.
    pub x: int,
    /// The running tick.
    pub tick: int,
    /// The tick of the last event.
    pub last_tick: int,
    /// The pitches that sound, in the order of their attack.
    pub held: Seq<u8>,
    /// The repeat actions of every column, with their counters.
    pub plan: Seq<Seq<RepeatEnd>>,
}

/// The release or the attack of `key`.
pub open spec fn note_event(on: bool, key: u8) -> MidiEventType {
    if on {
        MidiEventType::NoteOn(key)
    } else {
        MidiEventType::NoteOff(key)
    }
}

/// The events that release or attack `keys` in order: the first `gap` ticks
/// after the previous event, the others at once.
pub open spec fn note_run(on: bool, keys: Seq<u8>, channel: u8, gap: u32) -> Seq<u8>
    decreases keys.len(),
{
    if keys.len() == 0 {
        Seq::empty()
    } else {
        note_run(on, keys.drop_last(), channel, gap) + note_event(on, keys.last()).encoding(
            if keys.len() == 1 {
                gap
            } else {
                0
            },
            channel,
        )
    }
}

impl Playhead {
    /// The state before the first visit.
    pub open spec fn start(plan: Seq<Seq<RepeatEnd>>) -> Playhead {
        Playhead { x: 0, tick: 0, last_tick: 0, held: Seq::empty(), plan }
    }

    /// The events of the visit of the next column: the held pitches are
    /// released, then the pitches of the column are attacked in ascending
    /// order.
    pub open spec fn sounds(self, lane: Seq<Set<u8>>, channel: u8) -> Seq<u8> {
        let gap = (self.tick - self.last_tick) as u32;
        let attacked = ascending(lane[self.x]);
        note_run(false, self.held, channel, gap) + note_run(
            true,
            attacked,
            channel,
            if self.held.len() > 0 {
                0
            } else {
                gap
            },
        )
    }

    /// The state after the visit of the next column.
    pub open spec fn next(self, lane: Seq<Set<u8>>) -> Playhead {
        let attacked = ascending(lane[self.x]);
        Playhead {
            x: next_column(self.plan[self.x], self.x),
            tick: self.tick + DELTATIME_PER_BLOCK,
            last_tick: if self.held.len() > 0 || attacked.len() > 0 {
                self.tick
            } else {
                self.last_tick
            },
            held: attacked,
            plan: self.plan.update(self.x, after_visit(self.plan[self.x])),
        }
    }
}

/// The events of a walk from `head` that leaves the lane within `visits`
/// visits, or `None` if the walk takes longer.
pub open spec fn unroll(lane: Seq<Set<u8>>, channel: u8, head: Playhead, visits: nat) -> Option<
    Seq<u8>,
>
    decreases visits,
{
    if head.x >= lane.len() {
        Some(Seq::empty())
    } else if visits == 0 {
        None
    } else {
        match unroll(lane, channel, head.next(lane), (visits - 1) as nat) {
            Some(rest) => Some(head.sounds(lane, channel) + rest),
            None => None,
        }
    }
}

/// What opens a track: its name and its program.
pub open spec fn track_prologue(channel: u8, info: TrackInfo) -> Seq<u8> {
    MidiMetaEventType::TrackName(info.name).encoding(0) + MidiEventType::ProgramChange(
        info.patch,
    ).encoding(0, channel)
}

/// The track of one channel: prologue, the events of the walk from the
/// first column, and the end of track.  `None` if the walk visits more than
/// `MAX_VISITS` columns or the track is longer than 32 bits can tell.
pub open spec fn track_of(
    lane: Seq<Set<u8>>,
    plan: Seq<Seq<RepeatEnd>>,
    channel: u8,
    info: TrackInfo,
) -> Option<Seq<u8>> {
    match unroll(lane, channel, Playhead::start(plan), MAX_VISITS as nat) {
        Some(events) => {
            let track = track_prologue(channel, info) + events
                + MidiMetaEventType::EndOfTrack.encoding(0);
            if track.len() <= u32::MAX {
                Some(track)
            } else {
                None
            }
        },
        None => None,
    }
}

/// `prefix` followed by `rest`, if there is a rest.
spec fn prefixed(prefix: Seq<u8>, rest: Option<Seq<u8>>) -> Option<Seq<u8>> {
    match rest {
        Some(rest) => Some(prefix + rest),
        None => None,
    }
}

/// Appends to `out` the events that release or attack `keys`.
fn emit_run(out: &mut Vec<u8>, on: bool, keys: &Vec<u8>, channel: u8, gap: u32)
    ensures
        final(out)@ == old(out)@ + note_run(on, keys@, channel, gap),
{
    let mut i: usize = 0;
    assert(keys@.take(0) =~= Seq::<u8>::empty());
    assert(out@ =~= old(out)@ + note_run(on, keys@.take(0), channel, gap));
    while i < keys.len()
        invariant
            i <= keys.len(),
            out@ == old(out)@ + note_run(on, keys@.take(i as int), channel, gap),
        decreases keys.len() - i,
    {
        let delta: u32 = if i == 0 {
            gap
        } else {
            0
        };
        let event = if on {
            MidiEventType::NoteOn(keys[i])
        } else {
            MidiEventType::NoteOff(keys[i])
        };
        let mut bytes = event.as_vec(delta, channel);
        out.append(&mut bytes);
        proof {
            assert(keys@.take(i + 1).drop_last() =~= keys@.take(i as int));
            assert(out@ =~= old(out)@ + note_run(on, keys@.take(i + 1), channel, gap));
        }
        i += 1;
    }
    assert(keys@.take(keys.len() as int) =~= keys@);
}

/// A copy of the actions of every column.
fn copy_plan(plan: &Vec<Vec<RepeatEnd>>) -> (copy: Vec<Vec<RepeatEnd>>)
    ensures
        copy.len() == plan.len(),
        plan_view(copy@) == plan_view(plan@),
{
    let mut copy: Vec<Vec<RepeatEnd>> = Vec::new();
    let mut x: usize = 0;
    while x < plan.len()
        invariant
            x <= plan.len(),
            copy.len() == x,
            forall|c: int| 0 <= c < x ==> (#[trigger] copy[c])@ == plan[c]@,
        decreases plan.len() - x,
    {
        let mut actions: Vec<RepeatEnd> = Vec::new();
        let mut i: usize = 0;
        while i < plan[x].len()
            invariant
                x < plan.len(),
                i <= plan[x as int].len(),
                actions@ == plan[x as int]@.take(i as int),
            decreases plan[x as int].len() - i,
        {
            actions.push(plan[x][i]);
            assert(actions@ =~= plan[x as int]@.take(i + 1));
            i += 1;
        }
        assert(actions@ =~= plan[x as int]@);
        copy.push(actions);
        x += 1;
    }
    assert(plan_view(copy@) =~= plan_view(plan@));
    copy
}

/// Writes the track of one channel.
///
/// `lane` holds the pitches of the channel column by column, `plan` the
/// repeat actions of the same columns.  The plan itself is left alone: the
/// walk counts on a copy.
pub fn sequence_track(
    lane: &Vec<PitchSet>,
    plan: &Vec<Vec<RepeatEnd>>,
    channel: u8,
    info: &TrackInfo,
) -> (result: Result<Vec<u8>, ConvertError>)
    requires
        plan.len() == lane.len(),
        MidiMetaEventType::TrackName(info.name).encodable(),
    ensures
        match track_of(lane_view(lane@), plan_view(plan@), channel, *info) {
            Some(track) => result matches Ok(bytes) && bytes@ == track,
            None => result matches Err(error) && error == ConvertError::TrackTooLong,
        },
{
    let ghost notes = lane_view(lane@);
    let ghost target = unroll(notes, channel, Playhead::start(plan_view(plan@)), MAX_VISITS as nat);
    let width = lane.len();
    let mut work = copy_plan(plan);
    let mut out = MidiMetaEventType::TrackName(info.name.clone()).as_vec(0);
    let mut program = MidiEventType::ProgramChange(info.patch).as_vec(0, channel);
    out.append(&mut program);
    let ghost prologue = out@;
    let ghost mut events: Seq<u8> = Seq::empty();
    let ghost mut head = Playhead::start(plan_view(plan@));
    let mut x: usize = 0;
    let mut tick: u32 = 0;
    let mut last_tick: u32 = 0;
    let mut held: Vec<u8> = Vec::new();
    let mut visits: u32 = 0;
    proof {
        assert(events + target->0 =~= target->0);
        assert(out@ =~= prologue + events);
    }
    while x < width && visits < MAX_VISITS
        invariant
            width == lane.len(),
            work.len() == width,
            notes == lane_view(lane@),
            visits <= MAX_VISITS,
            tick == DELTATIME_PER_BLOCK * visits,
            last_tick <= tick,
            out@ == prologue + events,
            head.x == x,
            head.tick == tick,
            head.last_tick == last_tick,
            head.held == held@,
            head.plan == plan_view(work@),
            target == prefixed(events, unroll(notes, channel, head, (MAX_VISITS - visits) as nat)),
        decreases MAX_VISITS - visits,
    {
        let ghost rest = unroll(notes, channel, head.next(notes), (MAX_VISITS - visits - 1) as nat);
        let gap = tick - last_tick;
        emit_run(&mut out, false, &held, channel, gap);
        if held.len() > 0 {
            last_tick = tick;
        }
        let attacked = lane[x].to_vec();
        emit_run(&mut out, true, &attacked, channel, tick - last_tick);
        if attacked.len() > 0 {
            last_tick = tick;
        }
        tick += DELTATIME_PER_BLOCK;
        let ghost actions = work[x as int]@;
        let next = visit_column(&mut work[x], x);
        proof {
            let sounds = head.sounds(notes, channel);
            assert(notes[x as int] == lane[x as int]@);
            assert(out@ =~= prologue + (events + sounds));
            assert(plan_view(work@) =~= head.plan.update(x as int, after_visit(actions)));
            if rest is Some {
                assert((events + sounds) + rest->0 =~= events + (sounds + rest->0));
            }
            events = events + sounds;
            head = head.next(notes);
        }
        held = attacked;
        x = next;
        visits += 1;
    }
    if x < width {
        return Err(ConvertError::TrackTooLong);
    }
    let mut end = MidiMetaEventType::EndOfTrack.as_vec(0);
    out.append(&mut end);
    proof {
        assert(events + Seq::<u8>::empty() =~= events);
    }
    if out.len() > 0xFFFF_FFFF {
        return Err(ConvertError::TrackTooLong);
    }
    Ok(out)
}

} // verus!
