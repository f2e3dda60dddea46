//! A tree of named, nested timing spans, kept in the order they were opened.
//!
//! Spans nest as calls do: `open` starts a span inside the innermost one still
//! open, and `close` ends that innermost span with the time it took.
use vstd::prelude::*;

verus! {

/// One span: its name, how deep it sits, and its duration in microseconds
/// (zero while it is open).
#[derive(Clone, Debug, PartialEq, Eq)]
pub struct Timing {
    pub name: String,
    pub depth: usize,
    pub duration_micros: u64,
}

/// Spans in the order they were opened, and the stack of those still open.
pub struct TimerTree {
    timings: Vec<Timing>,
    open_spans: Vec<usize>,
}

impl TimerTree {
    /// The spans, in the order they were opened.
    pub closed spec fn timings(&self) -> Seq<Timing> {
        self.timings@
    }

    /// Indices of the spans still open, outermost first.
    pub closed spec fn open_spans(&self) -> Seq<usize> {
        self.open_spans@
    }

    pub open spec fn wf(&self) -> bool {
        &&& forall|k: int|
            0 <= k < self.open_spans().len() ==> #[trigger] self.open_spans()[k]
                < self.timings().len()
        &&& forall|k: int|
            0 <= k < self.open_spans().len() ==> self.timings()[#[trigger] self.open_spans()[k] as int].depth
                == k
        &&& forall|k: int, l: int|
            0 <= k < l < self.open_spans().len() ==> #[trigger] self.open_spans()[k]
                < #[trigger] self.open_spans()[l]
    }

    /// A tree with no span.
    pub fn new() -> (r: TimerTree)
        ensures
            r.wf(),
            r.timings().len() == 0,
            r.open_spans().len() == 0,
    {
        TimerTree { timings: Vec::new(), open_spans: Vec::new() }
    }

    /// Number of spans still open.
    pub fn depth(&self) -> (r: usize)
        ensures
            r == self.open_spans().len(),
    {
        self.open_spans.len()
    }

    /// All spans, in the order they were opened.
    pub fn timings_list(&self) -> (r: &Vec<Timing>)
        ensures
            r@ == self.timings(),
    {
        &self.timings
    }

    /// Opens a span named `name` inside the innermost open span.
    pub fn open(&mut self, name: String)
        requires
            old(self).wf(),
        ensures
            final(self).wf(),
            final(self).timings() == old(self).timings().push(
                Timing { name, depth: old(self).open_spans().len() as usize, duration_micros: 0 },
            ),
            final(self).open_spans() == old(self).open_spans().push(
                old(self).timings().len() as usize,
            ),
    {
        let idx = self.timings.len();
        let depth = self.open_spans.len();
        self.timings.push(Timing { name, depth, duration_micros: 0 });
        self.open_spans.push(idx);
        proof {
            assert forall|k: int| 0 <= k < self.open_spans@.len() implies self.timings@[
                #[trigger] self.open_spans@[k] as int].depth == k by {
                if k < depth {
                    assert(old(self).open_spans@[k] < idx);
                }
            }
        }
    }

    /// Closes the innermost open span and records `elapsed_micros` as its
    /// duration. Does nothing when no span is open.
    pub fn close(&mut self, elapsed_micros: u64)
        requires
            old(self).wf(),
        ensures
            final(self).wf(),
            old(self).open_spans().len() == 0 ==> final(self).timings() == old(self).timings()
                && final(self).open_spans() == old(self).open_spans(),
            old(self).open_spans().len() > 0 ==> {
                let top = old(self).open_spans().last() as int;
                let t = old(self).timings()[top];
                &&& final(self).open_spans() == old(self).open_spans().drop_last()
                &&& final(self).timings() == old(self).timings().update(
                    top,
                    Timing { name: t.name, depth: t.depth, duration_micros: elapsed_micros },
                )
            },
    {
        match self.open_spans.pop() {
            Some(top) => {
                let name = self.timings[top].name.clone();
                let depth = self.timings[top].depth;
                self.timings.set(top, Timing { name, depth, duration_micros: elapsed_micros });
                proof {
                    assert(self.open_spans@ =~= old(self).open_spans@.drop_last());
                }
            },
            None => {},
        }
    }
}

} // verus!
