//! Postings of one term in one segment, and a cursor over them.
use vstd::prelude::*;

verus! {

/// Identifier of a document inside one segment.
pub type DocId = u32;

/// One entry of a postings list: a document and how often the term occurs in it.
#[derive(Clone, Copy, Debug, PartialEq, Eq)]
pub struct Posting {
    pub doc: DocId,
    pub tf: u32,
}

/// Outcome of moving a cursor to a target document.
#[derive(Clone, Copy, Debug, PartialEq, Eq)]
pub enum SkipResult {
    /// The cursor stands on the target.
    Reached,
    /// The cursor stands on the first document past the target.
    OverShot,
    /// No document at or past the target is left.
    End,
}

/// Document identifiers strictly ascend along the list.
pub open spec fn docs_ascending(s: Seq<Posting>) -> bool {
    forall|i: int, j: int| 0 <= i < j < s.len() ==> #[trigger] s[i].doc < #[trigger] s[j].doc
}

/// The list holds an entry for document `d`.
pub open spec fn holds_doc(s: Seq<Posting>, d: DocId) -> bool {
    exists|i: int| 0 <= i < s.len() && #[trigger] s[i].doc == d
}

/// Checks that the documents of a postings list strictly ascend.
pub fn is_ascending(entries: &Vec<Posting>) -> (r: bool)
    ensures
        r == docs_ascending(entries@),
{
    let n = entries.len();
    if n == 0 {
        return true;
    }
    let mut i: usize = 1;
    while i < n
        invariant
            1 <= i <= n,
            n == entries@.len(),
            docs_ascending(entries@.subrange(0, i as int)),
        decreases n - i,
    {
        if entries[i - 1].doc >= entries[i].doc {
            assert(!docs_ascending(entries@)) by {
                assert(entries@[i - 1].doc >= entries@[i as int].doc);
            }
            return false;
        }
        assert forall|a: int, b: int| 0 <= a < b < i + 1 implies #[trigger] entries@.subrange(
            0,
            i + 1,
        )[a].doc < #[trigger] entries@.subrange(0, i + 1)[b].doc by {
            if b < i {
                assert(entries@.subrange(0, i as int)[a] == entries@[a]);
                assert(entries@.subrange(0, i as int)[b] == entries@[b]);
            } else if a < i - 1 {
                assert(entries@.subrange(0, i as int)[a] == entries@[a]);
                assert(entries@.subrange(0, i as int)[i - 1] == entries@[i - 1]);
            }
        }
        i = i + 1;
    }
    assert(entries@.subrange(0, n as int) =~= entries@);
    true
}

/// A cursor over the postings of one term in one segment.
///
/// Before the first `advance` or `skip_next` it stands on no document; after
/// that it stands on the entry at `cursor()`, or past the end once exhausted.
pub struct SegmentPostings {
    entries: Vec<Posting>,
    idx: usize,
    started: bool,
}

impl SegmentPostings {
    /// The entries that the cursor walks.
    pub closed spec fn postings(&self) -> Seq<Posting> {
        self.entries@
    }

    /// Index of the entry the cursor stands on; the length once exhausted.
    pub closed spec fn cursor(&self) -> int {
        self.idx as int
    }

    /// The cursor has been moved at least once.
    pub closed spec fn started(&self) -> bool {
        self.started
    }

    pub open spec fn wf(&self) -> bool {
        &&& docs_ascending(self.postings())
        &&& 0 <= self.cursor() <= self.postings().len()
        &&& !self.started() ==> self.cursor() == 0
    }

    /// The cursor stands on a document.
    pub open spec fn active(&self) -> bool {
        self.started() && self.cursor() < self.postings().len()
    }

    /// The document the cursor stands on.
    pub open spec fn current(&self) -> Posting {
        self.postings()[self.cursor()]
    }

    /// A cursor placed before the first entry of `entries`.
    pub fn new(entries: Vec<Posting>) -> (r: SegmentPostings)
        requires
            docs_ascending(entries@),
        ensures
            r.wf(),
            r.postings() == entries@,
            !r.started(),
            r.cursor() == 0,
    {
        SegmentPostings { entries, idx: 0, started: false }
    }

    /// Whether the cursor stands on a document.
    pub fn is_active(&self) -> (r: bool)
        requires
            self.wf(),
        ensures
            r == self.active(),
    {
        self.started && self.idx < self.entries.len()
    }

    /// Moves to the next entry; returns whether the cursor stands on one.
    /// Once exhausted it stays exhausted.
    pub fn advance(&mut self) -> (r: bool)
        requires
            old(self).wf(),
        ensures
            final(self).wf(),
            final(self).started(),
            final(self).postings() == old(self).postings(),
            final(self).cursor() == if !old(self).started() {
                0
            } else if old(self).cursor() < old(self).postings().len() {
                old(self).cursor() + 1
            } else {
                old(self).cursor()
            },
            r == final(self).active(),
    {
        if !self.started {
            self.started = true;
        } else if self.idx < self.entries.len() {
            self.idx = self.idx + 1;
        }
        self.idx < self.entries.len()
    }

    /// The document the cursor stands on.
    pub fn doc(&self) -> (r: DocId)
        requires
            self.wf(),
            self.active(),
        ensures
            r == self.current().doc,
    {
        self.entries[self.idx].doc
    }

    /// How often the term occurs in the document the cursor stands on.
    pub fn term_freq(&self) -> (r: u32)
        requires
            self.wf(),
            self.active(),
        ensures
            r == self.current().tf,
    {
        self.entries[self.idx].tf
    }

    /// Moves forward to the first entry whose document is at or past
    /// `target`, never backward. A cursor that already stands at or past
    /// `target` stays where it is.
    pub fn skip_next(&mut self, target: DocId) -> (r: SkipResult)
        requires
            old(self).wf(),
        ensures
            final(self).wf(),
            final(self).started(),
            final(self).postings() == old(self).postings(),
            ({
                let start = if old(self).started() { old(self).cursor() } else { 0 };
                &&& start <= final(self).cursor() <= final(self).postings().len()
                &&& forall|j: int|
                    start <= j < final(self).cursor() ==> #[trigger] final(self).postings()[j].doc
                        < target
            }),
            final(self).active() ==> final(self).current().doc >= target,
            r == SkipResult::End <==> !final(self).active(),
            r == SkipResult::Reached <==> final(self).active() && final(self).current().doc
                == target,
            r == SkipResult::OverShot <==> final(self).active() && final(self).current().doc
                > target,
    {
        self.started = true;
        let ghost start = self.idx as int;
        let n = self.entries.len();
        while self.idx < n && self.entries[self.idx].doc < target
            invariant
                self.wf(),
                self.started,
                n == self.entries@.len(),
                self.entries@ == old(self).entries@,
                start <= self.idx <= n,
                start == if old(self).started() { old(self).cursor() } else { 0 },
                forall|j: int| start <= j < self.idx ==> #[trigger] self.entries@[j].doc < target,
            decreases n - self.idx,
        {
            self.idx = self.idx + 1;
        }
        if self.idx == n {
            SkipResult::End
        } else if self.entries[self.idx].doc == target {
            SkipResult::Reached
        } else {
            SkipResult::OverShot
        }
    }
}

} // verus!
