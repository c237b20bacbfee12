//! The background job (a scan or a deep-index pass): starting it at most
//! once at a time, its progress, and how it finishes.
use vstd::prelude::*;
use crate::text::{decimal, push_decimal};

verus! {

/// What a finished job reports.
#[derive(Clone, Debug, PartialEq)]
pub enum JobResult {
    /// A scan: files added, updated and deleted.
    Scan { added: usize, updated: usize, deleted: usize },
    /// A scan followed by a deep-index pass over the new sheets.
    ScanDeepIndexed { added: usize, updated: usize, deleted: usize, deep_indexed: usize, errors: usize },
    /// A deep-index pass: sheets processed, files that failed.
    DeepIndex { processed: usize, errors: usize },
}

/// The state of the background job.
#[derive(Clone, Debug, PartialEq)]
pub struct JobState {
    pub running: bool,
    pub kind: String,
    pub current: usize,
    pub total: usize,
    pub message: String,
    pub result: Option<JobResult>,
    pub error: Option<String>,
}

impl Default for JobState {
    fn default() -> (r: JobState)
        ensures
            !r.running,
            r.kind@ == Seq::<char>::empty(),
            r.current == 0,
            r.total == 0,
            r.message@ == Seq::<char>::empty(),
            r.result is None,
            r.error is None,
    {
        JobState {
            running: false,
            kind: String::new(),
            current: 0,
            total: 0,
            message: String::new(),
            result: None,
            error: None,
        }
    }
}

/// The answer to a request while a job runs.
pub open spec fn busy_message() -> Seq<char> {
    "已有任务正在执行"@
}

impl JobState {
    /// Starts a job of `kind` with a first `message`, unless one is running:
    /// then nothing changes and the busy message comes back.
    pub fn start(&mut self, kind: &str, message: &str) -> (r: Result<(), String>)
        ensures
            old(self).running ==> (r matches Err(e) && e@ == busy_message() && *final(self) == *old(self)),
            !old(self).running ==> r is Ok && final(self).running && final(self).kind@ == kind@
                && final(self).current == 0 && final(self).total == 0 && final(self).message@ == message@
                && final(self).result is None && final(self).error is None,
    {
        if self.running {
            return Err("已有任务正在执行".to_owned());
        }
        self.running = true;
        self.kind = kind.to_owned();
        self.current = 0;
        self.total = 0;
        self.message = message.to_owned();
        self.result = None;
        self.error = None;
        Ok(())
    }

    /// Records progress.
    pub fn set_progress(&mut self, current: usize, total: usize)
        ensures
            final(self).current == current,
            final(self).total == total,
            final(self).running == old(self).running,
            final(self).kind == old(self).kind,
            final(self).message == old(self).message,
            final(self).result == old(self).result,
            final(self).error == old(self).error,
    {
        self.current = current;
        self.total = total;
    }

    /// Replaces the message of the running job.
    pub fn set_message(&mut self, message: &str)
        ensures
            final(self).message@ == message@,
            final(self).running == old(self).running,
            final(self).kind == old(self).kind,
            final(self).current == old(self).current,
            final(self).total == old(self).total,
            final(self).result == old(self).result,
            final(self).error == old(self).error,
    {
        self.message = message.to_owned();
    }

    /// Ends the job with its result, message and error.
    pub fn finish(&mut self, result: Option<JobResult>, message: String, error: Option<String>)
        ensures
            !final(self).running,
            final(self).result == result,
            final(self).message == message,
            final(self).error == error,
            final(self).kind == old(self).kind,
            final(self).current == old(self).current,
            final(self).total == old(self).total,
    {
        self.running = false;
        self.result = result;
        self.message = message;
        self.error = error;
    }
}

/// The summary of a scan, with the deep-indexed sheets where there were any.
pub open spec fn scan_message_spec(added: usize, updated: usize, deleted: usize, deep_indexed: usize) -> Seq<char> {
    "扫描完成：新增 "@ + decimal(added as nat) + "，更新 "@ + decimal(updated as nat) + "，删除 "@ + decimal(
        deleted as nat,
    ) + if deep_indexed > 0 {
        "；已深度索引 "@ + decimal(deep_indexed as nat) + " 个子表"@
    } else {
        seq![]
    }
}

pub fn scan_message(added: usize, updated: usize, deleted: usize, deep_indexed: usize) -> (r: String)
    ensures
        r@ == scan_message_spec(added, updated, deleted, deep_indexed),
{
    let mut s = String::new();
    s.append("扫描完成：新增 ");
    push_decimal(&mut s, added);
    s.append("，更新 ");
    push_decimal(&mut s, updated);
    s.append("，删除 ");
    push_decimal(&mut s, deleted);
    if deep_indexed > 0 {
        s.append("；已深度索引 ");
        push_decimal(&mut s, deep_indexed);
        s.append(" 个子表");
    }
    assert(s@ =~= scan_message_spec(added, updated, deleted, deep_indexed));
    s
}

/// The summary of a deep-index pass.
pub open spec fn deep_index_message_spec(processed: usize) -> Seq<char> {
    if processed == 0 {
        "深度索引已是最新"@
    } else {
        "深度索引完成：已处理 "@ + decimal(processed as nat) + " 个子表"@
    }
}

pub fn deep_index_message(processed: usize) -> (r: String)
    ensures
        r@ == deep_index_message_spec(processed),
{
    if processed == 0 {
        return "深度索引已是最新".to_owned();
    }
    let mut s = String::new();
    s.append("深度索引完成：已处理 ");
    push_decimal(&mut s, processed);
    s.append(" 个子表");
    assert(s@ =~= deep_index_message_spec(processed));
    s
}

/// The message while a scan hands over to the deep index.
pub open spec fn deep_index_after_scan_message() -> Seq<char> {
    "扫描完成，正在深度索引..."@
}

/// After the scan step of a scan job: a failed scan ends the job with its
/// error; a scan that left sheets without cell text (`pending > 0`) goes on
/// to a deep-index pass (the result is `true`); otherwise the job ends with
/// the scan's counts.
pub fn after_scan(job: &mut JobState, scan: Result<(usize, usize, usize), String>, pending: i64) -> (deep: bool)
    ensures
        deep == (scan is Ok && pending > 0),
        match scan {
            Err(e) => !final(job).running && final(job).result is None && final(job).message@ == Seq::<char>::empty()
                && final(job).error == Some(e),
            Ok((a, u, d)) => if pending > 0 {
                final(job).message@ == deep_index_after_scan_message() && final(job).running == old(job).running
                    && final(job).result == old(job).result && final(job).error == old(job).error
            } else {
                !final(job).running && final(job).result == Some(JobResult::Scan { added: a, updated: u, deleted: d })
                    && final(job).message@ == scan_message_spec(a, u, d, 0) && final(job).error is None
            },
        },
{
    match scan {
        Err(e) => {
            job.finish(None, String::new(), Some(e));
            false
        },
        Ok((a, u, d)) => {
            if pending > 0 {
                job.set_message("扫描完成，正在深度索引...");
                true
            } else {
                job.finish(Some(JobResult::Scan { added: a, updated: u, deleted: d }), scan_message(a, u, d, 0), None);
                false
            }
        },
    }
}

/// Ends a scan job after its deep-index pass.
pub fn after_scan_deep_index(job: &mut JobState, counts: (usize, usize, usize), deep: Result<(usize, usize), String>)
    ensures
        !final(job).running,
        match deep {
            Ok((p, e)) => final(job).result == Some(JobResult::ScanDeepIndexed {
                added: counts.0,
                updated: counts.1,
                deleted: counts.2,
                deep_indexed: p,
                errors: e,
            }) && final(job).message@ == scan_message_spec(counts.0, counts.1, counts.2, p)
                && final(job).error is None,
            Err(err) => final(job).result is None && final(job).message@ == Seq::<char>::empty()
                && final(job).error == Some(err),
        },
{
    match deep {
        Ok((p, e)) => {
            let message = scan_message(counts.0, counts.1, counts.2, p);
            job.finish(
                Some(JobResult::ScanDeepIndexed { added: counts.0, updated: counts.1, deleted: counts.2, deep_indexed: p, errors: e }),
                message,
                None,
            );
        },
        Err(err) => job.finish(None, String::new(), Some(err)),
    }
}

/// Ends a deep-index job.
pub fn after_deep_index(job: &mut JobState, deep: Result<(usize, usize), String>)
    ensures
        !final(job).running,
        match deep {
            Ok((p, e)) => final(job).result == Some(JobResult::DeepIndex { processed: p, errors: e })
                && final(job).message@ == deep_index_message_spec(p) && final(job).error is None,
            Err(err) => final(job).result is None && final(job).message@ == Seq::<char>::empty()
                && final(job).error == Some(err),
        },
{
    match deep {
        Ok((p, e)) => {
            let message = deep_index_message(p);
            job.finish(Some(JobResult::DeepIndex { processed: p, errors: e }), message, None);
        },
        Err(err) => job.finish(None, String::new(), Some(err)),
    }
}

/// Whether the index may be cleared: not while a job runs, then the answer
/// is this message.
pub open spec fn clear_busy_message() -> Seq<char> {
    "任务执行中，请稍后再清空索引"@
}

pub fn may_clear_index(job: &JobState) -> (r: Result<(), String>)
    ensures
        job.running ==> (r matches Err(e) && e@ == clear_busy_message()),
        !job.running ==> r is Ok,
{
    if job.running {
        Err("任务执行中，请稍后再清空索引".to_owned())
    } else {
        Ok(())
    }
}

} // verus!
