use vstd::prelude::*;

use crate::kinds::RuleKind;

verus! {

/// Whether trace output should carry ANSI color codes when rendered.
#[derive(Clone, Copy, Debug, PartialEq, Eq, Structural)]
pub enum AnsiColored {
    Yes,
    No,
}

/// One structured trace record: which parser, at what nesting depth, and
/// whether it was entered or left. Rendering these to text is a consumer's
/// concern, not the engine's.
#[derive(Clone, Copy, Debug, PartialEq, Eq, Structural)]
pub struct TraceEvent {
    pub parser: RuleKind,
    pub depth: usize,
    pub enter: bool,
}

/// An explicit, passed-in tracing capability that records which parser is
/// executing at which nesting depth: helpful under backtracking to see how
/// much progress a parser made and what had to be retried. A no-op unless
/// enabled; there is no implicit global state.
#[derive(Debug)]
pub struct Debugger {
    pub enabled: bool,
    pub color: AnsiColored,
    pub ignore_trivia: bool,
    pub parsers: Vec<RuleKind>,
    pub events: Vec<TraceEvent>,
}

impl Debugger {
    /// The stack of parsers currently entered.
    pub open spec fn parser_stack(&self) -> Seq<RuleKind> {
        self.parsers@
    }

    /// Everything recorded so far.
    pub open spec fn trace(&self) -> Seq<TraceEvent> {
        self.events@
    }

    /// A disabled tracer: the default capability, recording nothing.
    pub fn new() -> (r: Debugger)
        ensures
            !r.enabled,
            r.color == AnsiColored::No,
            !r.ignore_trivia,
            r.parser_stack() == Seq::<RuleKind>::empty(),
            r.trace() == Seq::<TraceEvent>::empty(),
    {
        Debugger {
            enabled: false,
            color: AnsiColored::No,
            ignore_trivia: false,
            parsers: Vec::new(),
            events: Vec::new(),
        }
    }

    /// An enabled tracer that asks for ANSI color when rendered.
    pub fn with_color() -> (r: Debugger)
        ensures
            r.enabled,
            r.color == AnsiColored::Yes,
            !r.ignore_trivia,
            r.parser_stack() == Seq::<RuleKind>::empty(),
            r.trace() == Seq::<TraceEvent>::empty(),
    {
        Debugger {
            enabled: true,
            color: AnsiColored::Yes,
            ignore_trivia: false,
            parsers: Vec::new(),
            events: Vec::new(),
        }
    }

    /// Whether trivia parsers should be left out of the trace.
    pub fn ignore_trivia(self, ignore: bool) -> (r: Debugger)
        ensures
            r.ignore_trivia == ignore,
            r.enabled == self.enabled,
            r.color == self.color,
            r.parser_stack() == self.parser_stack(),
            r.trace() == self.trace(),
    {
        Debugger { ignore_trivia: ignore, ..self }
    }

    /// The current nesting depth.
    pub fn depth(&self) -> (r: usize)
        ensures
            r == self.parser_stack().len(),
    {
        self.parsers.len()
    }

    /// Enters a parser: pushes it on the stack and, when enabled, records
    /// the entry at the depth it happened.
    pub fn enter_parser(&mut self, parser: RuleKind)
        ensures
            final(self).parser_stack() == old(self).parser_stack().push(parser),
            old(self).enabled ==> final(self).trace() == old(self).trace().push(
                TraceEvent { parser, depth: old(self).parser_stack().len() as usize, enter: true },
            ),
            !old(self).enabled ==> final(self).trace() == old(self).trace(),
            final(self).enabled == old(self).enabled,
            final(self).color == old(self).color,
            final(self).ignore_trivia == old(self).ignore_trivia,
    {
        if self.enabled {
            let depth = self.parsers.len();
            self.events.push(TraceEvent { parser, depth, enter: true });
        }
        self.parsers.push(parser);
    }

    /// Leaves the most recently entered parser, recording the exit when
    /// enabled. Leaving with an empty stack records nothing.
    pub fn exit_parser(&mut self)
        ensures
            old(self).parser_stack().len() > 0 ==> final(self).parser_stack() == old(
                self,
            ).parser_stack().drop_last(),
            old(self).parser_stack().len() == 0 ==> final(self).parser_stack() == old(
                self,
            ).parser_stack() && final(self).trace() == old(self).trace(),
            (old(self).enabled && old(self).parser_stack().len() > 0) ==> final(self).trace()
                == old(self).trace().push(
                TraceEvent {
                    parser: old(self).parser_stack().last(),
                    depth: (old(self).parser_stack().len() - 1) as usize,
                    enter: false,
                },
            ),
            (!old(self).enabled && old(self).parser_stack().len() > 0) ==> final(self).trace()
                == old(self).trace(),
            final(self).enabled == old(self).enabled,
    {
        match self.parsers.pop() {
            Some(parser) => {
                if self.enabled {
                    let depth = self.parsers.len();
                    self.events.push(TraceEvent { parser, depth, enter: false });
                }
            }
            None => {}
        }
    }

    /// Records one event verbatim when enabled.
    pub fn log(&mut self, event: TraceEvent)
        ensures
            old(self).enabled ==> final(self).trace() == old(self).trace().push(event),
            !old(self).enabled ==> final(self).trace() == old(self).trace(),
            final(self).parser_stack() == old(self).parser_stack(),
            final(self).enabled == old(self).enabled,
    {
        if self.enabled {
            self.events.push(event);
        }
    }

    /// The events recorded so far, oldest first.
    pub fn events(&self) -> (r: &Vec<TraceEvent>)
        ensures
            r@ == self.trace(),
    {
        &self.events
    }
}

} // verus!
