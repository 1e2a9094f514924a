//! The state of a stage that runs beside the viewer: its log, whether it runs,
//! and whether the model should be reloaded.

use vstd::prelude::*;

use crate::order;
use crate::order::push_text;
use crate::paths;
use crate::paths::join_text;

verus! {

/// A log longer than this is cut.
pub const MAX_LOG_LINES: usize = 4000;

/// What a cut log keeps.
pub const KEPT_LOG_LINES: usize = 3000;

/// A running or finished stage.
#[derive(Debug)]
pub struct RunState {
    pub log: Vec<String>,
    pub running: bool,
    /// Set when a run finishes, so that the viewer knows to reload the model.
    pub finished: bool,
    pub last_stage: String,
}

/// The tail of the log that is kept: a long run can say a lot, and only the
/// end is ever shown.
pub open spec fn bounded(log: Seq<Seq<char>>) -> Seq<Seq<char>> {
    if log.len() > MAX_LOG_LINES {
        log.skip(log.len() - KEPT_LOG_LINES)
    } else {
        log
    }
}

/// The line that announces a command.
pub open spec fn command_line(args: Seq<Seq<char>>, project: Seq<char>) -> Seq<char> {
    "$ sfmtory "@ + paths::join_with(args, " "@) + " --project "@ + project
}

impl RunState {
    /// The log is never longer than its bound.
    pub open spec fn wf(&self) -> bool {
        self.log@.len() <= MAX_LOG_LINES
    }

    pub fn new() -> (r: RunState)
        ensures
            r.wf(),
            r.log@.len() == 0,
            !r.running,
            !r.finished,
            r.last_stage@.len() == 0,
    {
        RunState {
            log: Vec::new(),
            running: false,
            finished: false,
            last_stage: String::new(),
        }
    }

    pub fn is_running(&self) -> (r: bool)
        ensures
            r == self.running,
    {
        self.running
    }

    /// Whether a run has finished since this was last asked.
    pub fn take_finished(&mut self) -> (r: bool)
        ensures
            r == old(self).finished,
            !final(self).finished,
            final(self).log == old(self).log,
            final(self).running == old(self).running,
            final(self).last_stage == old(self).last_stage,
    {
        let was = self.finished;
        self.finished = false;
        was
    }

    /// Adds a line to the log.
    pub fn push(&mut self, line: String)
        ensures
            final(self).wf(),
            order::texts(final(self).log@) == bounded(order::texts(old(self).log@).push(line@)),
            final(self).running == old(self).running,
            final(self).finished == old(self).finished,
            final(self).last_stage == old(self).last_stage,
    {
        let ghost before = order::texts(self.log@);
        push_text(&mut self.log, line);
        let len: usize = self.log.len();
        assert(order::texts(self.log@).len() == len);
        if len > MAX_LOG_LINES {
            let ghost full = order::texts(self.log@);
            let tail = self.log.split_off(len - KEPT_LOG_LINES);
            self.log = tail;
            assert(order::texts(self.log@) =~= full.skip(len - KEPT_LOG_LINES));
        }
    }

    /// Begins a run, unless one is on; the command is announced in the log.
    pub fn begin(&mut self, args: &Vec<String>, project: &str) -> (started: bool)
        ensures
            started == !old(self).running,
            final(self).running,
            final(self).finished == old(self).finished,
            started ==> final(self).wf(),
            started ==> order::texts(final(self).log@) == bounded(
                order::texts(old(self).log@).push(command_line(order::texts(args@), project@)),
            ),
            started ==> final(self).last_stage@ == if args@.len() > 0 {
                args@[0]@
            } else {
                Seq::empty()
            },
            !started ==> final(self).log == old(self).log && final(self).last_stage == old(
                self,
            ).last_stage,
    {
        if self.running {
            return false;
        }
        self.running = true;
        self.last_stage = if args.len() > 0 {
            args[0].clone()
        } else {
            String::new()
        };
        let mut line = String::from_str("$ sfmtory ");
        line.append(join_text(args, " ").as_str());
        line.append(" --project ");
        line.append(project);
        self.push(line);
        true
    }

    /// Ends a run.
    pub fn end(&mut self)
        ensures
            !final(self).running,
            final(self).finished,
            final(self).log == old(self).log,
            final(self).last_stage == old(self).last_stage,
    {
        self.finished = true;
        self.running = false;
    }
}

/// The log keeps its last lines, in order. It drops none until there are more
/// than 4000, and then all but 3000.
pub proof fn the_last_lines_are_kept(log: Seq<Seq<char>>, i: int)
    requires
        0 <= i < bounded(log).len(),
    ensures
        bounded(log).len() <= log.len(),
        bounded(log)[i] == log[log.len() - bounded(log).len() + i],
        log.len() <= 4000 ==> bounded(log) == log,
        log.len() > 4000 ==> bounded(log).len() == 3000,
{
}

} // verus!
