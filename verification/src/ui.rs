//! Decisions of the main window: when Start may run, and what a finished batch reports.
use vstd::prelude::*;

use crate::config::Settings;
use crate::media::GpuCapabilities;
use crate::pipeline::BatchSummary;
use crate::text::{blank_str, decimal, is_blank, owned, push_decimal, push_str};

verus! {

/// What pressing Start does.
#[derive(Debug, Clone)]
pub enum StartDecision {
    /// Nothing: a batch is running or the queue is empty.
    Ignore,
    /// Rendering is unavailable; the reason to show.
    GpuUnavailable(String),
    /// The analysis endpoint or model is missing; the settings window opens.
    ApiNotConfigured,
    /// Save the settings and start the batch.
    Start,
}

pub open spec fn gpu_block_reason(gpu: Option<GpuCapabilities>) -> Seq<char> {
    match gpu {
        Some(g) => g.reason@,
        None => "GPU check is still running."@,
    }
}

pub fn start_decision(
    running: bool,
    queue_len: usize,
    gpu: Option<&GpuCapabilities>,
    settings: &Settings,
) -> (d: StartDecision)
    ensures
        (running || queue_len == 0) ==> d is Ignore,
        !(running || queue_len == 0) && !(gpu matches Some(g) && g.available) ==> (d matches StartDecision::GpuUnavailable(r) && r@ == gpu_block_reason(match gpu { Some(g) => Some(*g), None => None })),
        !(running || queue_len == 0) && (gpu matches Some(g) && g.available) && (is_blank(settings.api_endpoint@) || is_blank(settings.api_model@)) ==> d is ApiNotConfigured,
        !(running || queue_len == 0) && (gpu matches Some(g) && g.available) && !(is_blank(settings.api_endpoint@) || is_blank(settings.api_model@)) ==> d is Start,
        d is Start ==> (gpu matches Some(g) && g.available) && !is_blank(settings.api_endpoint@)
            && !is_blank(settings.api_model@),
{
    if running || queue_len == 0 {
        return StartDecision::Ignore;
    }
    match gpu {
        None => return StartDecision::GpuUnavailable(owned("GPU check is still running.")),
        Some(g) => {
            if !g.available {
                return StartDecision::GpuUnavailable(owned(g.reason.as_str()));
            }
        },
    }
    if blank_str(settings.api_endpoint.as_str()) || blank_str(settings.api_model.as_str()) {
        return StartDecision::ApiNotConfigured;
    }
    StartDecision::Start
}

/// Colour of a notice.
#[derive(Debug, Clone, Copy, PartialEq, Eq, Structural)]
pub enum NoticeTone {
    Success,
    Warning,
    Danger,
}

/// What the window shows when a batch ends.
#[derive(Debug, Clone)]
pub struct FinishReport {
    pub status: String,
    pub title: String,
    pub body: String,
    pub tone: NoticeTone,
    /// Text of the Windows completion toast, when one is shown.
    pub native_body: Option<String>,
}

pub fn finish_report(summary: BatchSummary, notify_complete: bool) -> (r: FinishReport)
    ensures
        summary.stopped ==> r.status@ == "Stopped. Start is available again."@ && r.title@ == "Processing stopped"@
            && r.body@ == decimal(summary.completed as nat) + " episode(s) completed before Stop."@
            && r.tone == NoticeTone::Warning && r.native_body is None,
        !summary.stopped && summary.failed > 0 ==> r.status@ == "Processing failed. Start is available again."@
            && r.title@ == "Recap production failed"@
            && r.body@ == decimal(summary.completed as nat) + " completed, "@ + decimal(summary.failed as nat) + " failed."@
            && r.tone == NoticeTone::Danger && r.native_body is None,
        !summary.stopped && summary.failed == 0 ==> r.status@ == "All episodes completed."@
            && r.title@ == "Recap production complete"@
            && r.body@ == "Rendered "@ + decimal(summary.completed as nat) + " episode(s) successfully."@
            && r.tone == NoticeTone::Success
            && (notify_complete <==> r.native_body is Some)
            && (r.native_body matches Some(t) ==> t@ == "Rendered "@ + decimal(summary.completed as nat) + " episode(s)."@),
{
    if summary.stopped {
        let mut body = String::new();
        push_decimal(&mut body, summary.completed as u64);
        push_str(&mut body, " episode(s) completed before Stop.");
        FinishReport {
            status: owned("Stopped. Start is available again."),
            title: owned("Processing stopped"),
            body,
            tone: NoticeTone::Warning,
            native_body: None,
        }
    } else if summary.failed > 0 {
        let mut body = String::new();
        push_decimal(&mut body, summary.completed as u64);
        push_str(&mut body, " completed, ");
        push_decimal(&mut body, summary.failed as u64);
        push_str(&mut body, " failed.");
        FinishReport {
            status: owned("Processing failed. Start is available again."),
            title: owned("Recap production failed"),
            body,
            tone: NoticeTone::Danger,
            native_body: None,
        }
    } else {
        let mut body = owned("Rendered ");
        push_decimal(&mut body, summary.completed as u64);
        push_str(&mut body, " episode(s) successfully.");
        let native_body = if notify_complete {
            let mut t = owned("Rendered ");
            push_decimal(&mut t, summary.completed as u64);
            push_str(&mut t, " episode(s).");
            Some(t)
        } else {
            None
        };
        FinishReport {
            status: owned("All episodes completed."),
            title: owned("Recap production complete"),
            body,
            tone: NoticeTone::Success,
            native_body,
        }
    }
}

/// Status line after a selection was accepted.
pub fn queue_ready_status(count: usize) -> (s: String)
    ensures
        s@ == decimal(count as nat) + " video(s) detected and ready."@,
{
    let mut s = String::new();
    push_decimal(&mut s, count as u64);
    push_str(&mut s, " video(s) detected and ready.");
    s
}

} // verus!
