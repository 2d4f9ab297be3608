//! What the exchange services share: their error, the tracker that lets
//! through only updates newer than the last one let through, and the
//! events a stream receives and the actions it answers them with.
use vstd::prelude::*;
use crate::text::join3;
use crate::common::OrderbookUpdate;

verus! {

/// An error of an exchange service, with its description.
#[derive(Debug)]
pub struct OrderbookError {
    pub details: String,
}

impl OrderbookError {
    pub fn new(details: &str) -> (r: OrderbookError)
        ensures
            r.details@ == details@,
    {
        OrderbookError { details: String::from_str(details) }
    }

    /// The error of a failed HTTP request: `code: <status>; details:
    /// <message>`.
    pub fn from_http(status: &str, message: &str) -> (r: OrderbookError)
        ensures
            r.details@ == "code: "@ + status@ + "; details: "@ + message@,
    {
        let mut details = join3("code: ", status, "; details: ");
        details.append(message);
        OrderbookError { details }
    }

    /// The text the error displays: its details.
    pub fn message(&self) -> (r: String)
        ensures
            r@ == self.details@,
    {
        self.details.clone()
    }
}

/// What an exchange's stream receives, as far as its decision goes; `U`
/// is the exchange's update.
pub enum StreamEvent<U> {
    /// A text message that reads as an update.
    Update(U),
    /// A text message that does not read as an update.
    Unreadable,
    Ping,
    Pong,
    Close,
    /// Any other message.
    Other,
    /// A failed read.
    Failed,
    /// The end of the stream.
    Ended,
}

/// What a stream does on an event.
pub enum StreamAction {
    /// Hands on this update.
    Yield(OrderbookUpdate),
    /// Reads on.
    Skip,
    /// Reports the event, then reads on.
    Report,
    /// Connects and subscribes again, then reads on.
    Reconnect,
    /// Stops: the event cannot be handled.
    Abort,
}

/// Whether an update numbered `id` passes a tracker whose last update was
/// numbered `last`: only a newer one does.
pub open spec fn passes(last: u64, id: u64) -> bool {
    id > last
}

/// The number of the last update let through after offering `id`.
pub open spec fn next_last(last: u64, id: u64) -> u64 {
    if passes(last, id) {
        id
    } else {
        last
    }
}

/// Numbers that rise strictly, each above `base`.
pub open spec fn rises_from(base: u64, ids: Seq<u64>) -> bool {
    &&& forall|i: int| 0 <= i < ids.len() ==> #[trigger] ids[i] > base
    &&& forall|i: int, j: int| 0 <= i < j < ids.len() ==> #[trigger] ids[i] < #[trigger] ids[j]
}

/// The number of the last update let through, for a stream of updates.
pub struct LastUpdate {
    last: u64,
    base: Ghost<u64>,
    passed: Ghost<Seq<u64>>,
}

impl LastUpdate {
    pub closed spec fn last_view(&self) -> u64 {
        self.last
    }

    /// The number the tracker started from: zero, or that of the snapshot
    /// it was last reset to.
    pub closed spec fn base_view(&self) -> u64 {
        self.base@
    }

    /// The numbers of the updates let through since then, in turn.
    pub closed spec fn passed_view(&self) -> Seq<u64> {
        self.passed@
    }

    /// The last number is that of the last update let through, or the
    /// starting number where none was, and the numbers let through rise
    /// strictly from the starting number.
    pub closed spec fn wf(&self) -> bool {
        &&& rises_from(self.base@, self.passed@)
        &&& self.last == if self.passed@.len() == 0 {
            self.base@
        } else {
            self.passed@.last()
        }
    }

    /// A tracker never lets through an update older than or as old as one
    /// it let through before, nor one not newer than the snapshot it
    /// started from: the numbers it lets through rise strictly, all above
    /// the starting number, and the last number never falls below it.
    pub proof fn lemma_passed_rise(&self)
        requires
            self.wf(),
        ensures
            rises_from(self.base_view(), self.passed_view()),
            self.last_view() >= self.base_view(),
            self.passed_view().len() > 0 ==> self.last_view() == self.passed_view().last(),
    {
    }

    /// A tracker that has let nothing through: every update numbered above
    /// zero passes.
    pub fn new() -> (r: LastUpdate)
        ensures
            r.wf(),
            r.last_view() == 0,
            r.base_view() == 0,
            r.passed_view() == Seq::<u64>::empty(),
    {
        LastUpdate { last: 0, base: Ghost(0), passed: Ghost(Seq::empty()) }
    }

    pub fn last(&self) -> (r: u64)
        ensures
            r == self.last_view(),
    {
        self.last
    }

    /// Lets the update numbered `id` through where it is newer than the
    /// last one, which it then becomes.
    pub fn accept(&mut self, id: u64) -> (r: bool)
        requires
            old(self).wf(),
        ensures
            final(self).wf(),
            r == passes(old(self).last_view(), id),
            final(self).last_view() == next_last(old(self).last_view(), id),
            final(self).last_view() >= old(self).last_view(),
            final(self).base_view() == old(self).base_view(),
            final(self).passed_view() == if r {
                old(self).passed_view().push(id)
            } else {
                old(self).passed_view()
            },
    {
        if id <= self.last {
            false
        } else {
            let ghost old_passed = self.passed@;
            self.last = id;
            self.passed = Ghost(self.passed@.push(id));
            proof {
                let p = self.passed@;
                assert forall|i: int, j: int| 0 <= i < j < p.len() implies #[trigger] p[i] < #[trigger] p[j] by {
                    if j == p.len() - 1 && i < j {
                        assert(p[i] == old_passed[i]);
                        if old_passed.len() > 0 {
                            assert(old_passed[i] <= old_passed.last());
                        }
                    }
                }
            }
            true
        }
    }

    /// Starts again from the update numbered `id` (that of a snapshot).
    pub fn reset(&mut self, id: u64)
        ensures
            final(self).wf(),
            final(self).last_view() == id,
            final(self).base_view() == id,
            final(self).passed_view() == Seq::<u64>::empty(),
    {
        self.last = id;
        self.base = Ghost(id);
        self.passed = Ghost(Seq::empty());
    }
}

} // verus!
