//! Data shared by the pipeline: episode stages, recap plans and media facts.
use vstd::prelude::*;

use crate::text::{blank_str, decimal, is_blank, owned, push_decimal, push_str};

verus! {

/// File extensions accepted as video input (compared without regard to ASCII case).
pub open spec fn video_extensions() -> Seq<Seq<char>> {
    seq!["mp4"@, "mkv"@, "mov"@, "avi"@, "webm"@, "m4v"@, "ts"@]
}

/// The accepted video extensions, in the order the file dialog lists them.
pub fn video_extension_list() -> (v: Vec<&'static str>)
    ensures
        v@.len() == video_extensions().len(),
        forall|i: int| 0 <= i < v@.len() ==> (#[trigger] v@[i])@ == video_extensions()[i],
{
    let v = vec!["mp4", "mkv", "mov", "avi", "webm", "m4v", "ts"];
    proof {
        reveal_strlit("mp4");
        reveal_strlit("mkv");
        reveal_strlit("mov");
        reveal_strlit("avi");
        reveal_strlit("webm");
        reveal_strlit("m4v");
        reveal_strlit("ts");
        assert(v@[0]@ == video_extensions()[0]);
        assert(v@[1]@ == video_extensions()[1]);
        assert(v@[2]@ == video_extensions()[2]);
        assert(v@[3]@ == video_extensions()[3]);
        assert(v@[4]@ == video_extensions()[4]);
        assert(v@[5]@ == video_extensions()[5]);
        assert(v@[6]@ == video_extensions()[6]);
    }
    v
}

#[derive(Debug, Clone, Copy, PartialEq, Eq, Structural)]
pub enum EpisodeStage {
    Waiting,
    Analyzing,
    Preparing,
    Rendering,
    Completed,
    Stopped,
    Failed,
}

pub open spec fn stage_label(stage: EpisodeStage) -> Seq<char> {
    match stage {
        EpisodeStage::Waiting => "Waiting"@,
        EpisodeStage::Analyzing => "Analyzing"@,
        EpisodeStage::Preparing => "Preparing voice/video"@,
        EpisodeStage::Rendering => "Rendering"@,
        EpisodeStage::Completed => "Completed"@,
        EpisodeStage::Stopped => "Stopped"@,
        EpisodeStage::Failed => "Failed"@,
    }
}

impl EpisodeStage {
    /// The text shown for this stage in the queue.
    pub fn label(self) -> (s: &'static str)
        ensures
            s@ == stage_label(self),
    {
        match self {
            EpisodeStage::Waiting => "Waiting",
            EpisodeStage::Analyzing => "Analyzing",
            EpisodeStage::Preparing => "Preparing voice/video",
            EpisodeStage::Rendering => "Rendering",
            EpisodeStage::Completed => "Completed",
            EpisodeStage::Stopped => "Stopped",
            EpisodeStage::Failed => "Failed",
        }
    }
}

#[derive(Debug, Clone)]
pub struct RecapSegment {
    pub start_ms: u64,
    pub end_ms: u64,
    pub narration: String,
}

#[derive(Debug, Clone)]
pub struct RecapPlan {
    pub title: String,
    pub segments: Vec<RecapSegment>,
}

#[derive(Debug, Clone)]
pub struct MediaInfo {
    pub duration_ms: u64,
    pub width: u32,
    pub height: u32,
    pub video_codec: String,
}

/// Why one segment of a plan is rejected, in the order the checks are made.
#[derive(Debug, Clone, Copy, PartialEq, Eq, Structural)]
pub enum SegmentFault {
    EmptyNarration,
    InvalidRange,
    OutsideSource,
    Overlap,
}

/// Latest accepted segment end: the source duration plus 250 ms, saturating at `u64::MAX`.
pub open spec fn end_limit(duration_ms: u64) -> int {
    if duration_ms + 250 > u64::MAX {
        u64::MAX as int
    } else {
        duration_ms + 250
    }
}

/// The first check that segment `i` fails, if any.
pub open spec fn segment_fault(segs: Seq<RecapSegment>, i: int, duration_ms: u64) -> Option<
    SegmentFault,
> {
    let s = segs[i];
    if is_blank(s.narration@) {
        Some(SegmentFault::EmptyNarration)
    } else if s.start_ms >= s.end_ms {
        Some(SegmentFault::InvalidRange)
    } else if s.end_ms > end_limit(duration_ms) {
        Some(SegmentFault::OutsideSource)
    } else if i > 0 && s.start_ms < segs[i - 1].end_ms {
        Some(SegmentFault::Overlap)
    } else {
        None
    }
}

/// A plan that `RecapPlan::validate` accepts for a source of the given duration.
pub open spec fn plan_valid(plan: RecapPlan, duration_ms: u64) -> bool {
    &&& !is_blank(plan.title@)
    &&& plan.segments@.len() > 0
    &&& forall|i: int|
        0 <= i < plan.segments@.len() ==> #[trigger] segment_fault(plan.segments@, i, duration_ms)
            is None
}

pub open spec fn empty_title_message() -> Seq<char> {
    "Analysis returned an empty title."@
}

pub open spec fn no_segments_message() -> Seq<char> {
    "Analysis returned no recap segments."@
}

/// Message for a fault of the segment at zero-based position `i`.
pub open spec fn fault_message(i: int, fault: SegmentFault) -> Seq<char> {
    "Segment "@ + decimal((i + 1) as nat) + match fault {
        SegmentFault::EmptyNarration => " has empty narration."@,
        SegmentFault::InvalidRange => " has an invalid time range."@,
        SegmentFault::OutsideSource => " ends outside the source video."@,
        SegmentFault::Overlap => " overlaps the previous segment."@,
    }
}

fn fault_message_text(i: usize, fault: SegmentFault) -> (m: String)
    requires
        i < usize::MAX,
    ensures
        m@ == fault_message(i as int, fault),
{
    let mut m = String::new();
    push_str(&mut m, "Segment ");
    push_decimal(&mut m, (i as u64) + 1);
    match fault {
        SegmentFault::EmptyNarration => push_str(&mut m, " has empty narration."),
        SegmentFault::InvalidRange => push_str(&mut m, " has an invalid time range."),
        SegmentFault::OutsideSource => push_str(&mut m, " ends outside the source video."),
        SegmentFault::Overlap => push_str(&mut m, " overlaps the previous segment."),
    }
    proof {
        reveal_strlit("Segment ");
    }
    assert(m@ =~= fault_message(i as int, fault));
    m
}

impl RecapPlan {
    /// Checks a plan against the source duration; on the first problem found returns its message.
    pub fn validate(&self, source_duration_ms: u64) -> (r: Result<(), String>)
        ensures
            r is Ok <==> plan_valid(*self, source_duration_ms),
            is_blank(self.title@) ==> (r matches Err(m) && m@ == empty_title_message()),
            !is_blank(self.title@) && self.segments@.len() == 0 ==> (r matches Err(m) && m@
                == no_segments_message()),
            forall|i: int|
                #![trigger segment_fault(self.segments@, i, source_duration_ms)]
                0 <= i < self.segments@.len() && !is_blank(self.title@) && segment_fault(
                    self.segments@,
                    i,
                    source_duration_ms,
                ) is Some && (forall|j: int|
                    0 <= j < i ==> #[trigger] segment_fault(self.segments@, j, source_duration_ms)
                        is None) ==> (r matches Err(m) && m@ == fault_message(
                    i,
                    segment_fault(self.segments@, i, source_duration_ms)->0,
                )),
    {
        if blank_str(self.title.as_str()) {
            return Err(owned("Analysis returned an empty title."));
        }
        if self.segments.len() == 0 {
            return Err(owned("Analysis returned no recap segments."));
        }
        let limit: u64 = if source_duration_ms > u64::MAX - 250 {
            u64::MAX
        } else {
            source_duration_ms + 250
        };
        let ghost segs = self.segments@;
        let mut previous_end: u64 = 0;
        let mut index: usize = 0;
        while index < self.segments.len()
            invariant
                segs == self.segments@,
                !is_blank(self.title@),
                segs.len() > 0,
                index <= segs.len(),
                limit == end_limit(source_duration_ms),
                index > 0 ==> previous_end == segs[index - 1].end_ms,
                forall|j: int|
                    0 <= j < index ==> #[trigger] segment_fault(segs, j, source_duration_ms)
                        is None,
            decreases segs.len() - index,
        {
            let segment = &self.segments[index];
            let fault = if blank_str(segment.narration.as_str()) {
                Some(SegmentFault::EmptyNarration)
            } else if segment.start_ms >= segment.end_ms {
                Some(SegmentFault::InvalidRange)
            } else if segment.end_ms > limit {
                Some(SegmentFault::OutsideSource)
            } else if index > 0 && segment.start_ms < previous_end {
                Some(SegmentFault::Overlap)
            } else {
                None
            };
            assert(fault == segment_fault(segs, index as int, source_duration_ms));
            if let Some(f) = fault {
                let m = fault_message_text(index, f);
                return Err(m);
            }
            previous_end = segment.end_ms;
            index += 1;
        }
        Ok(())
    }
}

/// A valid plan is chronological: every segment is a proper interval inside the source
/// (plus the 250 ms tolerance), and each one ends no later than any later segment starts.
pub proof fn lemma_valid_plan_is_chronological(plan: RecapPlan, duration_ms: u64)
    requires
        plan_valid(plan, duration_ms),
    ensures
        forall|i: int|
            0 <= i < plan.segments@.len() ==> (#[trigger] plan.segments@[i]).start_ms
                < plan.segments@[i].end_ms <= end_limit(duration_ms),
        forall|i: int, j: int|
            0 <= i < j < plan.segments@.len() ==> (#[trigger] plan.segments@[i]).end_ms
                <= (#[trigger] plan.segments@[j]).start_ms,
{
    let segs = plan.segments@;
    assert forall|i: int| 0 <= i < segs.len() implies (#[trigger] segs[i]).start_ms
        < segs[i].end_ms <= end_limit(duration_ms) by {
        assert(segment_fault(segs, i, duration_ms) is None);
    }
    assert forall|i: int, j: int| 0 <= i < j < segs.len() implies (#[trigger] segs[i]).end_ms
        <= (#[trigger] segs[j]).start_ms by {
        lemma_chain(plan, duration_ms, i, j);
    }
}

proof fn lemma_chain(plan: RecapPlan, duration_ms: u64, i: int, j: int)
    requires
        plan_valid(plan, duration_ms),
        0 <= i < j < plan.segments@.len(),
    ensures
        plan.segments@[i].end_ms <= plan.segments@[j].start_ms,
    decreases j - i,
{
    let segs = plan.segments@;
    assert(segment_fault(segs, j, duration_ms) is None);
    if j > i + 1 {
        lemma_chain(plan, duration_ms, i, j - 1);
        assert(segment_fault(segs, j - 1, duration_ms) is None);
    }
}

} // verus!
