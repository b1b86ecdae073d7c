//! A buffer of user-facing text gathered while tasks run: the raw output
//! lines and the one-line summaries. The caller owns an `App` and passes it
//! (or a channel feeding it) to whatever runs tasks; there is no global.

use vstd::prelude::*;

verus! {

/// The two views as sequences of lines: `(output, summary)`.
pub open spec fn lines_view(v: Seq<String>) -> Seq<Seq<char>> {
    v.map_values(|s: String| s@)
}

/// Collected task output and task summaries.
#[derive(Debug, Default)]
pub struct App {
    hm_task_output: Vec<String>,
    hm_task_summary: Vec<String>,
}

impl View for App {
    type V = (Seq<Seq<char>>, Seq<Seq<char>>);

    closed spec fn view(&self) -> (Seq<Seq<char>>, Seq<Seq<char>>) {
        (lines_view(self.hm_task_output@), lines_view(self.hm_task_summary@))
    }
}

impl App {
    /// Append one line to the task output.
    pub fn append_output(&mut self, output: &str)
        ensures
            final(self)@.0 == old(self)@.0.push(output@),
            final(self)@.1 == old(self)@.1,
    {
        let line = output.to_owned();
        self.hm_task_output.push(line);
        proof {
            assert(final(self)@.0 =~= old(self)@.0.push(output@));
        }
    }

    /// Append one line to the task summary.
    pub fn append_summary(&mut self, summary: &str)
        ensures
            final(self)@.1 == old(self)@.1.push(summary@),
            final(self)@.0 == old(self)@.0,
    {
        let line = summary.to_owned();
        self.hm_task_summary.push(line);
        proof {
            assert(final(self)@.1 =~= old(self)@.1.push(summary@));
        }
    }

    /// Set the app's task summary.
    pub fn set_hm_task_summary(&mut self, hm_task_summary: Vec<String>)
        ensures
            final(self)@.1 == lines_view(hm_task_summary@),
            final(self)@.0 == old(self)@.0,
    {
        self.hm_task_summary = hm_task_summary;
    }

    /// Set the app's task output.
    pub fn set_hm_task_output(&mut self, hm_task_output: Vec<String>)
        ensures
            final(self)@.0 == lines_view(hm_task_output@),
            final(self)@.1 == old(self)@.1,
    {
        self.hm_task_output = hm_task_output;
    }

    /// Get a copy of the app's task output.
    pub fn hm_task_output(&self) -> (r: Vec<String>)
        ensures
            lines_view(r@) == self@.0,
    {
        let r = self.hm_task_output.clone();
        proof {
            assert(lines_view(r@) =~= self@.0);
        }
        r
    }

    /// Get a copy of the app's task summary.
    pub fn hm_task_summary(&self) -> (r: Vec<String>)
        ensures
            lines_view(r@) == self@.1,
    {
        let r = self.hm_task_summary.clone();
        proof {
            assert(lines_view(r@) =~= self@.1);
        }
        r
    }
}

} // verus!
