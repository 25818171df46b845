//! Counts completed queries by outcome class. One tracker lives for one run:
//! it is told the intended number of servers up front, is handed every
//! completion exactly once (in whatever order the queries finish), and is
//! finalized once after the last completion.
//!
//! The caller serializes the concurrent completions (the surrounding
//! application holds the tracker behind a mutex); the contracts here say what
//! each serialized `record` does, and the order-independence lemma says that
//! any serialization order yields the same final counters.

use vstd::prelude::*;
use vstd::multiset::Multiset;

use crate::outcome::OutcomeClass;
use crate::outcome::QueryOutcome;
use crate::outcome::class_of;

verus! {

/// How many completions in `h` fell into bucket `k`. Defined over the
/// multiset of `h`, so it depends only on which completions arrived, not on
/// the order they arrived in.
pub open spec fn class_count(h: Seq<OutcomeClass>, k: OutcomeClass) -> nat {
    h.to_multiset().count(k)
}

/// The immutable counts a finished run reports.
#[derive(Clone, Copy, Debug, PartialEq, Eq, Structural)]
pub struct Summary {
    /// How many servers were dispatched to.
    pub server_count: usize,
    /// How many servers answered the query.
    pub response_count: usize,
    /// How many queries ran out of time.
    pub timeout_count: usize,
    /// How many servers actively refused the connection.
    pub refused_count: usize,
    /// How many queries failed in any other way.
    pub other_count: usize,
}

/// The mutable per-run counters, advanced once per completed query.
pub struct Tracker {
    server_count: usize,
    response_count: usize,
    timeout_count: usize,
    refused_count: usize,
    other_count: usize,
    handled: usize,
    history: Ghost<Seq<OutcomeClass>>,
}

impl Tracker {
    /// The classes of the completions recorded so far, in arrival order.
    pub closed spec fn recorded(self) -> Seq<OutcomeClass> {
        self.history@
    }

    /// The number of servers this run dispatched to, fixed at construction.
    pub closed spec fn servers(self) -> nat {
        self.server_count as nat
    }

    /// Every counter equals the count of its class among the recorded
    /// completions, and no more completions were recorded than servers
    /// dispatched.
    pub closed spec fn wf(self) -> bool {
        &&& self.handled == self.history@.len()
        &&& self.handled <= self.server_count
        &&& self.response_count == class_count(self.history@, OutcomeClass::Response)
        &&& self.timeout_count == class_count(self.history@, OutcomeClass::Timeout)
        &&& self.refused_count == class_count(self.history@, OutcomeClass::Refused)
        &&& self.other_count == class_count(self.history@, OutcomeClass::Other)
    }

    /// A fresh tracker for a run against `server_count` servers: nothing
    /// recorded yet.
    pub fn new(server_count: usize) -> (t: Tracker)
        ensures
            t.wf(),
            t.servers() == server_count,
            t.recorded() == Seq::<OutcomeClass>::empty(),
    {
        proof {
            broadcast use vstd::seq_lib::group_to_multiset_ensures;
            broadcast use vstd::multiset::group_multiset_axioms;

            assert(Seq::<OutcomeClass>::empty().to_multiset() =~= Multiset::<OutcomeClass>::empty());
        }
        Tracker {
            server_count,
            response_count: 0,
            timeout_count: 0,
            refused_count: 0,
            other_count: 0,
            handled: 0,
            history: Ghost(Seq::empty()),
        }
    }

    /// Takes one completed query. Exactly the counter of the outcome's class
    /// advances, and the completion is appended to the recorded history.
    /// Each dispatched query is handed in once, so at most `servers()`
    /// completions are ever recorded, and none after `finalize`.
    pub fn record(&mut self, outcome: &QueryOutcome)
        requires
            old(self).wf(),
            old(self).recorded().len() < old(self).servers(),
        ensures
            final(self).wf(),
            final(self).servers() == old(self).servers(),
            final(self).recorded() == old(self).recorded().push(class_of(*outcome)),
    {
        proof {
            broadcast use vstd::seq_lib::group_to_multiset_ensures;
            broadcast use vstd::multiset::group_multiset_axioms;

            lemma_class_counts_partition(old(self).history@);
        }
        let ghost k = class_of(*outcome);
        proof {
            self.history@ = self.history@.push(k);
        }
        self.handled = self.handled + 1;
        match outcome {
            QueryOutcome::Success(_) => {
                self.response_count = self.response_count + 1;
            },
            QueryOutcome::Failure(e) => {
                match e {
                    crate::outcome::ErrorKind::Timeout => {
                        self.timeout_count = self.timeout_count + 1;
                    },
                    crate::outcome::ErrorKind::ConnectionRefused => {
                        self.refused_count = self.refused_count + 1;
                    },
                    crate::outcome::ErrorKind::Other => {
                        self.other_count = self.other_count + 1;
                    },
                }
            },
        }
    }

    /// Closes the run, once every dispatched query has completed. The
    /// summary's counters are the class counts of the full history, they add
    /// up to the server count exactly (every query landed in exactly one
    /// bucket), and `server_count` is the number dispatched to.
    pub fn finalize(&self) -> (s: Summary)
        requires
            self.wf(),
            self.recorded().len() == self.servers(),
        ensures
            s.server_count == self.servers(),
            s.response_count == class_count(self.recorded(), OutcomeClass::Response),
            s.timeout_count == class_count(self.recorded(), OutcomeClass::Timeout),
            s.refused_count == class_count(self.recorded(), OutcomeClass::Refused),
            s.other_count == class_count(self.recorded(), OutcomeClass::Other),
            s.response_count + s.timeout_count + s.refused_count + s.other_count
                == s.server_count,
    {
        proof {
            lemma_class_counts_partition(self.history@);
        }
        Summary {
            server_count: self.server_count,
            response_count: self.response_count,
            timeout_count: self.timeout_count,
            refused_count: self.refused_count,
            other_count: self.other_count,
        }
    }
}

/// Every completion lands in exactly one bucket, so the four class counts
/// add up to the number of completions.
pub proof fn lemma_class_counts_partition(h: Seq<OutcomeClass>)
    ensures
        class_count(h, OutcomeClass::Response) + class_count(h, OutcomeClass::Timeout)
            + class_count(h, OutcomeClass::Refused) + class_count(h, OutcomeClass::Other)
            == h.len(),
    decreases h.len(),
{
    broadcast use vstd::seq_lib::group_to_multiset_ensures;
    broadcast use vstd::multiset::group_multiset_axioms;

    if h.len() == 0 {
        assert(h.to_multiset() =~= Multiset::<OutcomeClass>::empty());
    } else {
        lemma_class_counts_partition(h.drop_last());
        assert(h =~= h.drop_last().push(h.last()));
    }
}

/// The classes of a whole outcome list, in list order.
pub open spec fn classes_of(s: Seq<QueryOutcome>) -> Seq<OutcomeClass> {
    s.map_values(|o: QueryOutcome| class_of(o))
}

/// Runs a whole batch of completed outcomes through a fresh tracker, one at
/// a time, and finalizes: the sequential reference run that any concurrent
/// serialization of the same outcomes must agree with.
pub fn summarize(outcomes: &Vec<QueryOutcome>) -> (s: Summary)
    ensures
        s.server_count == outcomes@.len(),
        s.response_count == class_count(classes_of(outcomes@), OutcomeClass::Response),
        s.timeout_count == class_count(classes_of(outcomes@), OutcomeClass::Timeout),
        s.refused_count == class_count(classes_of(outcomes@), OutcomeClass::Refused),
        s.other_count == class_count(classes_of(outcomes@), OutcomeClass::Other),
        s.response_count + s.timeout_count + s.refused_count + s.other_count == s.server_count,
{
    let mut t = Tracker::new(outcomes.len());
    proof {
        assert(classes_of(outcomes@.take(0)) =~= Seq::<OutcomeClass>::empty());
    }
    let mut i: usize = 0;
    while i < outcomes.len()
        invariant
            i <= outcomes@.len(),
            t.wf(),
            t.servers() == outcomes@.len(),
            t.recorded() == classes_of(outcomes@.take(i as int)),
        decreases outcomes@.len() - i,
    {
        t.record(&outcomes[i]);
        proof {
            assert(classes_of(outcomes@.take(i + 1)) =~= classes_of(
                outcomes@.take(i as int),
            ).push(class_of(outcomes@[i as int])));
        }
        i = i + 1;
    }
    proof {
        assert(outcomes@.take(outcomes@.len() as int) =~= outcomes@);
    }
    t.finalize()
}

/// A run in which no completion was a response reports zero responses.
pub proof fn lemma_no_responses(h: Seq<OutcomeClass>)
    requires
        forall|i: int| 0 <= i < h.len() ==> (#[trigger] h[i]) != OutcomeClass::Response,
    ensures
        class_count(h, OutcomeClass::Response) == 0,
{
    broadcast use vstd::seq_lib::group_to_multiset_ensures;
    broadcast use vstd::multiset::group_multiset_axioms;

    if class_count(h, OutcomeClass::Response) > 0 {
        assert(h.contains(OutcomeClass::Response));
        let i = choose|i: int| 0 <= i < h.len() && h[i] == OutcomeClass::Response;
        assert(false);
    }
}

/// The final counters do not depend on the order completions arrived in: two
/// runs whose recorded completions are the same multiset count every class
/// alike. This is why racing completions, serialized in any order, yield the
/// same report as a sequential pass over the same outcomes.
pub proof fn lemma_counts_order_independent(h1: Seq<OutcomeClass>, h2: Seq<OutcomeClass>)
    requires
        h1.to_multiset() == h2.to_multiset(),
    ensures
        forall|k: OutcomeClass| class_count(h1, k) == class_count(h2, k),
{
}

} // verus!
