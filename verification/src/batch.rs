use vstd::prelude::*;

use crate::ai::{accepted_labels, point_label_text, AiAnalysisResult, AiFailureRecord};
use crate::text::{decimal, decimal_chars, push_str_chars, string_of, views};

verus! {

/// Where an AI run over the videos stands: nothing running, a video being analysed, or a
/// result waiting for the user's confirmation.
#[derive(Debug, Clone, Copy, PartialEq, Eq, Structural)]
pub enum AiBatchState {
    Idle,
    Running,
    AwaitingConfirmation,
}

/// What the screen does after news about the analysis.
#[derive(Debug)]
pub enum BatchStep {
    /// The news is about an earlier analysis: nothing to do.
    Ignore,
    /// Finish the video with these labels, then go on.
    Finish(Vec<String>),
    /// Show the result and wait for the user to accept it or ask for a new one.
    AwaitConfirmation,
    /// The analysis failed and was recorded: skip the video, then go on.
    SkipVideo,
    /// The analysis failed: the run stops here.
    Stopped,
}

/// An AI run over the videos of a folder: its state, the number of the analysis in progress,
/// the result waiting for confirmation, how many videos were labelled and which failed, and
/// whether results are accepted without asking.
pub struct AiBatch {
    pub state: AiBatchState,
    pub work_id: u64,
    pub pending: Option<AiAnalysisResult>,
    pub success_count: usize,
    pub failures: Vec<AiFailureRecord>,
    pub auto_accept: bool,
}

/// The labels a video gets from an AI result (its labels, then the label of its score).
pub open spec fn result_labels(r: AiAnalysisResult) -> Seq<Seq<char>> {
    views(r.labels@).push(point_label_text(r.score as nat))
}

/// A failure as text: the file name and the reason.
pub open spec fn failure_view(f: AiFailureRecord) -> (Seq<char>, Seq<char>) {
    (f.filename@, f.reason@)
}

/// The lines of the failure list, numbered from `first`.
pub open spec fn failure_lines(failures: Seq<(Seq<char>, Seq<char>)>, first: nat) -> Seq<char>
    decreases failures.len(),
{
    if failures.len() == 0 {
        Seq::empty()
    } else {
        failure_lines(failures.drop_last(), first) + "\n"@ + decimal((first + failures.len() - 1) as nat) + ". "@
            + failures.last().0 + "："@ + failures.last().1
    }
}

/// The message shown when a run ends: how many videos succeeded and failed, then the failed
/// files with their reasons.
pub open spec fn summary_text(success: nat, failures: Seq<(Seq<char>, Seq<char>)>) -> Seq<char> {
    "AI 分析完成。成功："@ + decimal(success) + " 个，失败："@ + decimal(failures.len()) + " 个。"@ + if failures.len()
        > 0 {
        "\n失败文件："@ + failure_lines(failures, 1)
    } else {
        Seq::empty()
    }
}

impl AiBatch {
    /// Nothing running, nothing counted.
    pub fn new(auto_accept: bool) -> (r: Self)
        ensures
            r.state == AiBatchState::Idle,
            r.work_id == 0,
            r.pending is None,
            r.success_count == 0,
            r.failures@.len() == 0,
            r.auto_accept == auto_accept,
    {
        AiBatch {
            state: AiBatchState::Idle,
            work_id: 0,
            pending: None,
            success_count: 0,
            failures: Vec::new(),
            auto_accept,
        }
    }

    /// Starts a run: the counts and the failure list start anew.
    pub fn begin(&mut self)
        ensures
            final(self).success_count == 0,
            final(self).failures@.len() == 0,
            final(self).pending is None,
            final(self).state == old(self).state,
            final(self).work_id == old(self).work_id,
            final(self).auto_accept == old(self).auto_accept,
    {
        self.failures = Vec::new();
        self.success_count = 0;
        self.pending = None;
    }

    /// Starts the analysis of the current video under a new number, which is returned; news
    /// about earlier numbers is ignored from now on.
    pub fn start_video(&mut self) -> (r: u64)
        ensures
            r == old(self).work_id.wrapping_add(1),
            final(self).work_id == r,
            final(self).state == AiBatchState::Running,
            final(self).pending is None,
            final(self).success_count == old(self).success_count,
            final(self).failures@ == old(self).failures@,
            final(self).auto_accept == old(self).auto_accept,
    {
        self.work_id = self.work_id.wrapping_add(1);
        self.pending = None;
        self.state = AiBatchState::Running;
        self.work_id
    }

    /// A result arrived for analysis `work_id`. Accepted at once when results are accepted
    /// without asking (the video is to be finished with its labels), otherwise kept for
    /// confirmation.
    pub fn on_done(&mut self, work_id: u64, result: AiAnalysisResult) -> (r: BatchStep)
        requires
            old(self).success_count < usize::MAX,
        ensures
            final(self).work_id == old(self).work_id,
            final(self).failures@ == old(self).failures@,
            final(self).auto_accept == old(self).auto_accept,
            work_id != old(self).work_id ==> r is Ignore && final(self).state == old(self).state
                && final(self).pending == old(self).pending && final(self).success_count == old(self).success_count,
            work_id == old(self).work_id && old(self).auto_accept ==> (r matches BatchStep::Finish(labels)
                && views(labels@) == result_labels(result)) && final(self).state == AiBatchState::Idle
                && final(self).success_count == old(self).success_count + 1 && final(self).pending == old(self).pending,
            work_id == old(self).work_id && !old(self).auto_accept ==> r is AwaitConfirmation && final(self).state
                == AiBatchState::AwaitingConfirmation && final(self).pending == Some(result)
                && final(self).success_count == old(self).success_count,
    {
        if work_id != self.work_id {
            return BatchStep::Ignore;
        }
        if self.auto_accept {
            let labels = accepted_labels(&result);
            self.state = AiBatchState::Idle;
            self.success_count = self.success_count + 1;
            BatchStep::Finish(labels)
        } else {
            self.pending = Some(result);
            self.state = AiBatchState::AwaitingConfirmation;
            BatchStep::AwaitConfirmation
        }
    }

    /// Analysis `work_id` failed on the file `filename`. When results are accepted without
    /// asking, the failure is recorded and the video skipped; otherwise the run stops.
    pub fn on_failed(&mut self, work_id: u64, filename: String, reason: String) -> (r: BatchStep)
        ensures
            final(self).work_id == old(self).work_id,
            final(self).success_count == old(self).success_count,
            final(self).pending == old(self).pending,
            final(self).auto_accept == old(self).auto_accept,
            work_id != old(self).work_id ==> r is Ignore && final(self).state == old(self).state
                && final(self).failures@ == old(self).failures@,
            work_id == old(self).work_id && old(self).auto_accept ==> r is SkipVideo && final(self).state
                == AiBatchState::Idle && final(self).failures@ == old(self).failures@.push(
                AiFailureRecord { filename, reason },
            ),
            work_id == old(self).work_id && !old(self).auto_accept ==> r is Stopped && final(self).state
                == AiBatchState::Idle && final(self).failures@ == old(self).failures@,
    {
        if work_id != self.work_id {
            return BatchStep::Ignore;
        }
        self.state = AiBatchState::Idle;
        if self.auto_accept {
            self.failures.push(AiFailureRecord { filename, reason });
            BatchStep::SkipVideo
        } else {
            BatchStep::Stopped
        }
    }

    /// The user accepts the waiting result: it is counted and its labels are returned, to
    /// finish the video with. Nothing happens when no result waits.
    pub fn accept(&mut self) -> (r: Option<Vec<String>>)
        requires
            old(self).success_count < usize::MAX,
        ensures
            final(self).work_id == old(self).work_id,
            final(self).failures@ == old(self).failures@,
            final(self).auto_accept == old(self).auto_accept,
            match old(self).pending {
                Some(res) => (r matches Some(labels) && views(labels@) == result_labels(res))
                    && final(self).pending is None && final(self).state == AiBatchState::Idle
                    && final(self).success_count == old(self).success_count + 1,
                None => r is None && final(self).pending is None && final(self).state == old(self).state
                    && final(self).success_count == old(self).success_count,
            },
    {
        match self.pending.take() {
            Some(res) => {
                let labels = accepted_labels(&res);
                self.state = AiBatchState::Idle;
                self.success_count = self.success_count + 1;
                Some(labels)
            },
            None => None,
        }
    }

    /// The user asks for a new result: the waiting one is dropped and the video is analysed
    /// again under a new number, which is returned.
    pub fn regenerate(&mut self) -> (r: u64)
        ensures
            r == old(self).work_id.wrapping_add(1),
            final(self).work_id == r,
            final(self).state == AiBatchState::Running,
            final(self).pending is None,
            final(self).success_count == old(self).success_count,
            final(self).failures@ == old(self).failures@,
    {
        self.start_video()
    }

    /// Ends the run and gives its summary.
    pub fn finish(&mut self) -> (r: String)
        ensures
            final(self).state == AiBatchState::Idle,
            final(self).success_count == old(self).success_count,
            final(self).failures@ == old(self).failures@,
            r@ == summary_text(
                old(self).success_count as nat,
                old(self).failures@.map_values(|f: AiFailureRecord| failure_view(f)),
            ),
    {
        self.state = AiBatchState::Idle;
        let ghost fs = self.failures@.map_values(|f: AiFailureRecord| failure_view(f));
        let mut v: Vec<char> = Vec::new();
        push_str_chars(&mut v, "AI 分析完成。成功：");
        let mut a = decimal_chars(self.success_count as u64);
        v.append(&mut a);
        push_str_chars(&mut v, " 个，失败：");
        let mut b = decimal_chars(self.failures.len() as u64);
        v.append(&mut b);
        push_str_chars(&mut v, " 个。");
        let ghost head = v@;
        assert(head == "AI 分析完成。成功："@ + decimal(self.success_count as nat) + " 个，失败："@ + decimal(fs.len())
            + " 个。"@);
        if self.failures.len() > 0 {
            push_str_chars(&mut v, "\n失败文件：");
            let ghost lead = v@;
            let mut i: usize = 0;
            assert(fs.take(0) =~= Seq::<(Seq<char>, Seq<char>)>::empty());
            assert(lead + failure_lines(fs.take(0), 1) =~= lead);
            while i < self.failures.len()
                invariant
                    i <= self.failures.len(),
                    fs == self.failures@.map_values(|f: AiFailureRecord| failure_view(f)),
                    v@ == lead + failure_lines(fs.take(i as int), 1),
                decreases self.failures.len() - i,
            {
                assert(fs.take(i + 1).drop_last() =~= fs.take(i as int));
                assert(fs.take(i + 1).last() == failure_view(self.failures@[i as int]));
                push_str_chars(&mut v, "\n");
                let mut d = decimal_chars(i as u64 + 1);
                v.append(&mut d);
                push_str_chars(&mut v, ". ");
                push_str_chars(&mut v, self.failures[i].filename.as_str());
                push_str_chars(&mut v, "：");
                push_str_chars(&mut v, self.failures[i].reason.as_str());
                i += 1;
                assert(v@ =~= lead + failure_lines(fs.take(i as int), 1));
            }
            assert(fs.take(self.failures.len() as int) =~= fs);
            assert(v@ =~= head + ("\n失败文件："@ + failure_lines(fs, 1)));
        } else {
            assert(v@ =~= head + Seq::<char>::empty());
        }
        string_of(&v)
    }
}

} // verus!
