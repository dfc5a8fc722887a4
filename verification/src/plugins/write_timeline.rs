//! Capture of a timeline: one frame per physics step, bodies by key, the
//! game's pending events tied to the frame just captured.

use vstd::prelude::*;
use crate::key_order::{all_distinct, is_smallest_duplicate, row_keys, sort_distinct_rows, sorted_rows};
use crate::timeline::{frames_view, events_view, Timeline, TimelineView, TIMELINE_FPS};

verus! {

/// The capture in progress.
pub struct TimelineWriter<P> {
    total_frames: u32,
    frames: Vec<Vec<(u64, P)>>,
    events: Vec<(u32, String)>,
}

/// A capture as mathematical values: the frames it stops at and what it
/// holds so far.
pub struct TimelineWriterView<P> {
    pub total_frames: u32,
    pub content: TimelineView<P>,
}

impl<P> View for TimelineWriter<P> {
    type V = TimelineWriterView<P>;

    closed spec fn view(&self) -> TimelineWriterView<P> {
        TimelineWriterView {
            total_frames: self.total_frames,
            content: TimelineView {
                fps: TIMELINE_FPS,
                frames: frames_view(self.frames@),
                events: events_view(self.events@),
            },
        }
    }
}

impl<P> TimelineWriterView<P> {
    /// Never more frames than asked for, and the content is well formed.
    pub open spec fn inv(self) -> bool {
        &&& self.content.frames.len() <= self.total_frames
        &&& self.content.fps == TIMELINE_FPS
        &&& self.content.is_well_formed()
    }

    pub open spec fn is_complete(self) -> bool {
        self.content.frames.len() >= self.total_frames
    }
}

/// The frames of a capture that lasts `duration_secs` seconds.
pub open spec fn total_frames_for(duration_secs: u32) -> int {
    TIMELINE_FPS * duration_secs
}

impl<P: Copy> TimelineWriter<P> {
    pub fn new(duration_secs: u32) -> (r: Self)
        requires
            total_frames_for(duration_secs) <= u32::MAX,
        ensures
            r@.total_frames == total_frames_for(duration_secs),
            r@.total_frames == TIMELINE_FPS * duration_secs,
            r@.content.frames.len() == 0,
            r@.content.events.len() == 0,
            r@.inv(),
    {
        let r = TimelineWriter {
            total_frames: TIMELINE_FPS * duration_secs,
            frames: Vec::new(),
            events: Vec::new(),
        };
        assert(r@.content.frames =~= Seq::<Seq<(u64, P)>>::empty());
        assert(r@.content.events =~= Seq::<(u32, Seq<char>)>::empty());
        r
    }

    pub fn frames_captured(&self) -> (r: usize)
        ensures
            r == self@.content.frames.len(),
    {
        self.frames.len()
    }

    /// All the frames asked for are captured.
    pub fn is_complete(&self) -> (r: bool)
        ensures
            r == self@.is_complete(),
    {
        self.frames.len() as u64 >= self.total_frames as u64
    }

    /// Captures one frame: the rows `(key, pose)` of every body, in any
    /// order. Nothing happens once the capture is complete; two bodies with
    /// one key are refused (naming the smallest such key), since poses could
    /// then be swapped silently.
    pub fn capture_frame(&mut self, rows: Vec<(u64, P)>) -> (r: Result<(), u64>)
        requires
            old(self)@.inv(),
        ensures
            final(self)@.inv(),
            final(self)@.total_frames == old(self)@.total_frames,
            final(self)@.content.events == old(self)@.content.events,
            old(self)@.is_complete() ==> r is Ok && final(self)@ == old(self)@,
            !old(self)@.is_complete() ==> {
                &&& r is Ok <==> all_distinct(row_keys(rows@))
                &&& r matches Err(k) ==> is_smallest_duplicate(row_keys(rows@), k)
                    && final(self)@ == old(self)@
                &&& r is Ok ==> final(self)@.content.frames == old(self)@.content.frames.push(
                    sorted_rows(rows@),
                )
            },
    {
        if self.is_complete() {
            return Ok(());
        }
        let sorted = match sort_distinct_rows(&rows) {
            Ok(v) => v,
            Err(k) => return Err(k),
        };
        proof {
            assert(rows@.len() == rows.len());
            crate::key_order::lemma_sorted_distinct_ascending(rows@);
        }
        let ghost old_frames = self.frames@;
        self.frames.push(sorted);
        proof {
            let fv = frames_view(self.frames@);
            assert(fv =~= frames_view(old_frames).push(sorted_rows(rows@)));
            assert forall|f: int| 0 <= f < fv.len() implies crate::timeline::strictly_ascending(
                row_keys(#[trigger] fv[f]),
            ) by {
                if f < old_frames.len() {
                    assert(fv[f] == old(self)@.content.frames[f]);
                }
            }
            assert(self@.content.frames.len() <= self@.total_frames);
            assert(self@.content.events == old(self)@.content.events);
            assert(self@.content.is_well_formed());
        }
        Ok(())
    }

    /// Ties every pending event, in order, to the frame just captured, and
    /// empties `pending`. Events sent before the first frame have no frame
    /// to belong to and are dropped.
    pub fn drain_frame_events(&mut self, pending: &mut Vec<String>)
        requires
            old(self)@.inv(),
        ensures
            final(self)@.inv(),
            final(pending)@.len() == 0,
            final(self)@.total_frames == old(self)@.total_frames,
            final(self)@.content.frames == old(self)@.content.frames,
            old(self)@.content.frames.len() == 0 ==> final(self)@.content.events == old(
                self,
            )@.content.events,
            old(self)@.content.frames.len() > 0 ==> final(self)@.content.events == old(
                self,
            )@.content.events + old(pending)@.map_values(
                |p: String| ((old(self)@.content.frames.len() - 1) as u32, p@),
            ),
    {
        if pending.len() == 0 {
            assert(old(pending)@.map_values(
                |p: String| ((old(self)@.content.frames.len() - 1) as u32, p@),
            ) =~= Seq::<(u32, Seq<char>)>::empty());
            assert(events_view(self.events@) + Seq::<(u32, Seq<char>)>::empty() =~= events_view(
                self.events@,
            ));
            return;
        }
        if self.frames.len() == 0 {
            pending.clear();
            return;
        }
        let frame = (self.frames.len() - 1) as u32;
        let ghost old_events = self.events@;
        let ghost old_pending = pending@;
        let ghost added = old_pending.map_values(|p: String| (frame, p@));
        let mut i: usize = 0;
        while i < pending.len()
            invariant
                i <= pending.len(),
                pending@ == old_pending,
                self.total_frames == old(self).total_frames,
                self.frames@ == old(self).frames@,
                frame as int == self.frames@.len() - 1,
                self.frames@.len() <= self.total_frames,
                added == old_pending.map_values(|p: String| (frame, p@)),
                events_view(self.events@) =~= events_view(old_events) + added.subrange(0, i as int),
            decreases pending.len() - i,
        {
            let payload = pending[i].clone();
            let ghost prev = self.events@;
            self.events.push((frame, payload));
            proof {
                assert(events_view(self.events@) =~= events_view(prev).push((frame, payload@)));
                assert(added.subrange(0, i + 1) =~= added.subrange(0, i as int).push((frame, payload@)));
            }
            i += 1;
        }
        pending.clear();
        proof {
            assert(added.subrange(0, old_pending.len() as int) =~= added);
            let ev = events_view(self.events@);
            let old_ev = events_view(old_events);
            assert(ev =~= old_ev + added);
            assert(old_ev == old(self)@.content.events);
            assert forall|k: int| 0 <= k < added.len() implies (#[trigger] added[k]).0 == frame by {}
            assert(ev.len() == old_ev.len() + added.len());
            assert forall|e: int| 0 <= e < ev.len() implies (#[trigger] ev[e]).0 < self.frames@.len() by {
                if e >= old_ev.len() {
                    assert(ev[e] == added[e - old_ev.len()]);
                } else {
                    assert(ev[e] == old_ev[e]);
                }
            }
            assert forall|a: int, b: int| 0 <= a < b < ev.len() implies (#[trigger] ev[a]).0 <= (#[trigger] ev[b]).0 by {
                if b >= old_ev.len() {
                    assert(ev[b] == added[b - old_ev.len()]);
                    if a >= old_ev.len() {
                        assert(ev[a] == added[a - old_ev.len()]);
                    } else {
                        assert(ev[a] == old_ev[a]);
                    }
                } else {
                    assert(ev[a] == old_ev[a] && ev[b] == old_ev[b]);
                }
            }
        }
    }

    /// The captured timeline.
    pub fn finish(self) -> (r: Timeline<P>)
        requires
            self@.inv(),
        ensures
            r@ == self@.content,
            r@.is_well_formed(),
    {
        Timeline { fps: TIMELINE_FPS, frames: self.frames, events: self.events }
    }
}

/// A capture asked for `d` seconds stops after 60 frames for each second,
/// so the timeline it finishes lasts `d` seconds.
pub proof fn law_capture_lasts_requested_seconds<P>(d: u32, w: TimelineWriterView<P>)
    requires
        total_frames_for(d) <= u32::MAX,
        w.total_frames == total_frames_for(d),
        w.inv(),
        w.is_complete(),
    ensures
        w.content.frames.len() == 60 * d,
        w.content.duration_secs() == d,
{
    let n = w.content.frames.len();
    assert(n == 60 * d);
    assert((60 * d) / 60 == d) by (nonlinear_arith);
    assert((n as u32) as int == n);
}

} // verus!
