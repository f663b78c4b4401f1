use vstd::prelude::*;

use std::collections::HashMap;

use crate::kind::RclrsError;
use crate::promise::{fulfil, promise_channel, Promise, PromiseSender};

verus! {

broadcast use vstd::std_specs::hash::group_hash_axioms;

/// The per-client identity that the middleware gives one sent request.
pub type SequenceNumber = i64;

/// What a [`ClientRequestBoard`] holds: the senders of requests that await a
/// response, and the responses that came before their request was recorded.
pub struct BoardView<S, R> {
    pub active: Map<SequenceNumber, S>,
    pub loose: Map<SequenceNumber, R>,
}

impl<S, R> BoardView<S, R> {
    /// No sequence number is both awaited and answered.
    pub open spec fn wf(self) -> bool {
        forall|seq: SequenceNumber| !(#[trigger] self.active.contains_key(seq) && self.loose.contains_key(seq))
    }

    /// A request with sequence number `seq` was sent for `sender`: a response
    /// that already came is delivered at once, else the sender waits.
    pub open spec fn after_new_request(self, seq: SequenceNumber, sender: S) -> (Self, Option<(S, R)>) {
        if self.loose.contains_key(seq) {
            (
                BoardView { active: self.active, loose: self.loose.remove(seq) },
                Some((sender, self.loose[seq])),
            )
        } else {
            (BoardView { active: self.active.insert(seq, sender), loose: self.loose }, None)
        }
    }

    /// The response `data` for `seq` came: it is delivered to the waiting
    /// sender, or kept until the request is recorded.
    pub open spec fn after_response(self, seq: SequenceNumber, data: R) -> (Self, Option<(S, R)>) {
        if self.active.contains_key(seq) {
            (
                BoardView { active: self.active.remove(seq), loose: self.loose },
                Some((self.active[seq], data)),
            )
        } else {
            (BoardView { active: self.active, loose: self.loose.insert(seq, data) }, None)
        }
    }

    /// Neither map holds `seq`.
    pub open spec fn untouched(self, seq: SequenceNumber) -> bool {
        !self.active.contains_key(seq) && !self.loose.contains_key(seq)
    }
}

/// Whatever order the request's bookkeeping and its response come in, the
/// sender is resolved with the response exactly once, and afterwards neither
/// map holds the sequence number.
pub proof fn lemma_resolved_exactly_once<S, R>(b: BoardView<S, R>, seq: SequenceNumber, sender: S, data: R)
    requires
        b.wf(),
        b.untouched(seq),
    ensures
        ({
            let (b1, r1) = b.after_new_request(seq, sender);
            let (b2, r2) = b1.after_response(seq, data);
            &&& r1 == None::<(S, R)>
            &&& r2 == Some((sender, data))
            &&& b2.untouched(seq)
            &&& b2.wf()
        }),
        ({
            let (b1, r1) = b.after_response(seq, data);
            let (b2, r2) = b1.after_new_request(seq, sender);
            &&& r1 == None::<(S, R)>
            &&& r2 == Some((sender, data))
            &&& b2.untouched(seq)
            &&& b2.wf()
        }),
{
}

/// Two calls on one client, A then B, sent under distinct sequence numbers:
/// when the responses come B first, each sender still gets its own response,
/// B's at B's arrival and A's at A's, and neither number stays on the board.
pub proof fn lemma_two_calls_own_responses<S, R>(
    b: BoardView<S, R>,
    seq_a: SequenceNumber,
    sender_a: S,
    data_a: R,
    seq_b: SequenceNumber,
    sender_b: S,
    data_b: R,
)
    requires
        b.wf(),
        b.untouched(seq_a),
        b.untouched(seq_b),
        seq_a != seq_b,
    ensures
        ({
            let (b1, d1) = b.after_new_request(seq_a, sender_a);
            let (b2, d2) = b1.after_new_request(seq_b, sender_b);
            let (b3, d3) = b2.after_response(seq_b, data_b);
            let (b4, d4) = b3.after_response(seq_a, data_a);
            &&& d1 == None::<(S, R)>
            &&& d2 == None::<(S, R)>
            &&& d3 == Some((sender_b, data_b))
            &&& d4 == Some((sender_a, data_a))
            &&& b4.untouched(seq_a)
            &&& b4.untouched(seq_b)
        }),
{
}

/// One call on a board: a request's bookkeeping, or a response's arrival.
pub enum BoardEvent<S, R> {
    NewRequest { seq: SequenceNumber, sender: S },
    Response { seq: SequenceNumber, data: R },
}

impl<S, R> BoardEvent<S, R> {
    /// The sequence number that the call is about.
    pub open spec fn seq(self) -> SequenceNumber {
        match self {
            BoardEvent::NewRequest { seq, .. } => seq,
            BoardEvent::Response { seq, .. } => seq,
        }
    }
}

/// The senders that `events` register for `seq`, in order.
pub open spec fn requests_for<S, R>(events: Seq<BoardEvent<S, R>>, seq: SequenceNumber) -> Seq<S>
    decreases events.len(),
{
    if events.len() == 0 {
        Seq::empty()
    } else {
        let prev = requests_for(events.drop_last(), seq);
        match events.last() {
            BoardEvent::NewRequest { seq: s, sender } => if s == seq {
                prev.push(sender)
            } else {
                prev
            },
            BoardEvent::Response { .. } => prev,
        }
    }
}

/// The responses that `events` bring for `seq`, in order.
pub open spec fn responses_for<S, R>(events: Seq<BoardEvent<S, R>>, seq: SequenceNumber) -> Seq<R>
    decreases events.len(),
{
    if events.len() == 0 {
        Seq::empty()
    } else {
        let prev = responses_for(events.drop_last(), seq);
        match events.last() {
            BoardEvent::Response { seq: s, data } => if s == seq {
                prev.push(data)
            } else {
                prev
            },
            BoardEvent::NewRequest { .. } => prev,
        }
    }
}

impl<S, R> BoardView<S, R> {
    /// One call on the board.
    pub open spec fn step(self, event: BoardEvent<S, R>) -> (Self, Option<(S, R)>) {
        match event {
            BoardEvent::NewRequest { seq, sender } => self.after_new_request(seq, sender),
            BoardEvent::Response { seq, data } => self.after_response(seq, data),
        }
    }

    /// The board after `events`, in order.
    pub open spec fn run(self, events: Seq<BoardEvent<S, R>>) -> Self
        decreases events.len(),
    {
        if events.len() == 0 {
            self
        } else {
            self.run(events.drop_last()).step(events.last()).0
        }
    }

    /// The deliveries that the calls for `seq` among `events` make, in order.
    pub open spec fn delivered(self, events: Seq<BoardEvent<S, R>>, seq: SequenceNumber) -> Seq<(S, R)>
        decreases events.len(),
    {
        if events.len() == 0 {
            Seq::empty()
        } else {
            let prev = self.delivered(events.drop_last(), seq);
            let d = self.run(events.drop_last()).step(events.last()).1;
            if events.last().seq() == seq && d is Some {
                prev.push(d->0)
            } else {
                prev
            }
        }
    }
}

/// What the board holds for `seq` after `events` that register at most one
/// sender and bring at most one response for it.
proof fn lemma_board_phase<S, R>(b: BoardView<S, R>, events: Seq<BoardEvent<S, R>>, seq: SequenceNumber)
    requires
        b.wf(),
        b.untouched(seq),
        requests_for(events, seq).len() <= 1,
        responses_for(events, seq).len() <= 1,
    ensures
        ({
            let st = b.run(events);
            let del = b.delivered(events, seq);
            let req = requests_for(events, seq);
            let resp = responses_for(events, seq);
            &&& st.wf()
            &&& (req.len() == 0 && resp.len() == 0) ==> st.untouched(seq) && del.len() == 0
            &&& (req.len() == 1 && resp.len() == 0) ==> {
                &&& st.active.contains_key(seq)
                &&& st.active[seq] == req[0]
                &&& !st.loose.contains_key(seq)
                &&& del.len() == 0
            }
            &&& (req.len() == 0 && resp.len() == 1) ==> {
                &&& st.loose.contains_key(seq)
                &&& st.loose[seq] == resp[0]
                &&& !st.active.contains_key(seq)
                &&& del.len() == 0
            }
            &&& (req.len() == 1 && resp.len() == 1) ==> st.untouched(seq) && del == seq![(req[0], resp[0])]
        }),
    decreases events.len(),
{
    if events.len() > 0 {
        let prefix = events.drop_last();
        lemma_board_phase(b, prefix, seq);
        let st = b.run(prefix);
        let e = events.last();
        let next = st.step(e).0;
        assert forall|q: SequenceNumber| !(#[trigger] next.active.contains_key(q) && next.loose.contains_key(q)) by {
            assert(!(st.active.contains_key(q) && st.loose.contains_key(q)));
        }
        if requests_for(prefix, seq).len() == 1 {
            assert(requests_for(events, seq)[0] == requests_for(prefix, seq)[0]);
        }
        if responses_for(prefix, seq).len() == 1 {
            assert(responses_for(events, seq)[0] == responses_for(prefix, seq)[0]);
        }
    }
}

/// For every sequence of bookkeeping and response calls, on any sequence
/// numbers and in any order, that registers one sender and brings one
/// response for `seq`: the sender is resolved with that response exactly
/// once, and at the end neither map holds `seq`.
pub proof fn lemma_interleaving_resolves_once<S, R>(
    b: BoardView<S, R>,
    events: Seq<BoardEvent<S, R>>,
    seq: SequenceNumber,
    sender: S,
    data: R,
)
    requires
        b.wf(),
        b.untouched(seq),
        requests_for(events, seq) == seq![sender],
        responses_for(events, seq) == seq![data],
    ensures
        b.delivered(events, seq) == seq![(sender, data)],
        b.run(events).untouched(seq),
        b.run(events).wf(),
{
    lemma_board_phase(b, events, seq);
}

/// Bookkeeping and responses of one sequence number leave every other
/// sequence number's entries as they were, so calls on several sequence
/// numbers may interleave freely.
pub proof fn lemma_other_sequences_untouched<S, R>(b: BoardView<S, R>, seq: SequenceNumber, other: SequenceNumber, sender: S, data: R)
    requires
        seq != other,
    ensures
        ({
            let (b1, _r1) = b.after_new_request(seq, sender);
            &&& b1.active.contains_key(other) == b.active.contains_key(other)
            &&& b1.active[other] == b.active[other]
            &&& b1.loose.contains_key(other) == b.loose.contains_key(other)
            &&& b1.loose[other] == b.loose[other]
        }),
        ({
            let (b1, _r1) = b.after_response(seq, data);
            &&& b1.active.contains_key(other) == b.active.contains_key(other)
            &&& b1.active[other] == b.active[other]
            &&& b1.loose.contains_key(other) == b.loose.contains_key(other)
            &&& b1.loose[other] == b.loose[other]
        }),
{
}

/// The calls of one client that wait to be sent on the poller thread, as
/// pairs of request and result sender, oldest first.
pub struct ClientRequestSender<Q, S> {
    requests: Vec<(Q, S)>,
}

impl<Q, S> ClientRequestSender<Q, S> {
    /// The queued calls, oldest first.
    pub closed spec fn queued(&self) -> Seq<(Q, S)> {
        self.requests@
    }

    /// A sender with no queued calls.
    pub fn new() -> (r: Self)
        ensures
            r.queued() == Seq::<(Q, S)>::empty(),
    {
        ClientRequestSender { requests: Vec::new() }
    }

    /// Queue a call behind those already queued.
    pub fn send(&mut self, request: Q, sender: S)
        ensures
            final(self).queued() == old(self).queued().push((request, sender)),
    {
        self.requests.push((request, sender));
    }

    /// Take every queued call, oldest first, to be sent; none stays queued.
    pub fn take_requests(&mut self) -> (r: Vec<(Q, S)>)
        ensures
            r@ == old(self).queued(),
            final(self).queued() == Seq::<(Q, S)>::empty(),
    {
        let mut taken: Vec<(Q, S)> = Vec::new();
        std::mem::swap(&mut taken, &mut self.requests);
        taken
    }
}

/// A change that adds no key to either map, except possibly `seq` to one of
/// them, keeps the two maps disjoint.
pub proof fn lemma_disjoint_kept<S, R>(b: BoardView<S, R>, nb: BoardView<S, R>, seq: SequenceNumber)
    requires
        b.wf(),
        forall|q: SequenceNumber| q != seq && #[trigger] nb.active.contains_key(q) ==> b.active.contains_key(q),
        forall|q: SequenceNumber| q != seq && #[trigger] nb.loose.contains_key(q) ==> b.loose.contains_key(q),
        !(nb.active.contains_key(seq) && nb.loose.contains_key(seq)),
    ensures
        nb.wf(),
{
    assert forall|q: SequenceNumber| !(#[trigger] nb.active.contains_key(q) && nb.loose.contains_key(q)) by {
        assert(!(b.active.contains_key(q) && b.loose.contains_key(q)));
    }
}

/// `order` without the entries equal to `seq`, the rest in their order.
pub open spec fn without(order: Seq<SequenceNumber>, seq: SequenceNumber) -> Seq<SequenceNumber>
    decreases order.len(),
{
    if order.len() == 0 {
        Seq::empty()
    } else {
        let rest = without(order.drop_last(), seq);
        if order.last() == seq {
            rest
        } else {
            rest.push(order.last())
        }
    }
}

/// What a sequence holds after one more entry.
pub proof fn lemma_push_contains(order: Seq<SequenceNumber>, x: SequenceNumber)
    ensures
        forall|q: SequenceNumber| #[trigger] order.push(x).contains(q) <==> (order.contains(q) || q == x),
        order.no_duplicates() && !order.contains(x) ==> order.push(x).no_duplicates(),
{
    assert forall|q: SequenceNumber| #[trigger] order.push(x).contains(q) <==> (order.contains(q) || q == x) by {
        if order.contains(q) {
            let w = choose|w: int| 0 <= w < order.len() && order[w] == q;
            assert(order.push(x)[w] == q);
        }
        if q == x {
            assert(order.push(x)[order.len() as int] == q);
        }
        if order.push(x).contains(q) && q != x {
            let w = choose|w: int| 0 <= w < order.push(x).len() && order.push(x)[w] == q;
            assert(order[w] == q);
        }
    }
    if order.no_duplicates() && !order.contains(x) {
        assert forall|a: int, b: int| 0 <= a < order.push(x).len() && 0 <= b < order.push(x).len() && a != b
            implies order.push(x)[a] != order.push(x)[b] by {
            if a == order.len() {
                assert(order[b] != x);
            } else if b == order.len() {
                assert(order[a] != x);
            }
        }
    }
}

/// Taking entries out keeps the others, keeps them distinct, and keeps no `seq`.
pub proof fn lemma_without(order: Seq<SequenceNumber>, seq: SequenceNumber)
    ensures
        forall|q: SequenceNumber| #[trigger] without(order, seq).contains(q) <==> (order.contains(q) && q != seq),
        order.no_duplicates() ==> without(order, seq).no_duplicates(),
    decreases order.len(),
{
    if order.len() > 0 {
        let prefix = order.drop_last();
        let last = order.last();
        lemma_without(prefix, seq);
        assert(order =~= prefix.push(last));
        lemma_push_contains(prefix, last);
        lemma_push_contains(without(prefix, seq), last);
        if order.no_duplicates() {
            assert(!prefix.contains(last)) by {
                if prefix.contains(last) {
                    let w = choose|w: int| 0 <= w < prefix.len() && prefix[w] == last;
                    assert(order[w] == order[order.len() - 1]);
                }
            }
            assert(prefix.no_duplicates()) by {
                assert forall|a: int, b: int| 0 <= a < prefix.len() && 0 <= b < prefix.len() && a != b
                    implies prefix[a] != prefix[b] by {
                    assert(order[a] != order[b]);
                }
            }
        }
    } else {
        assert forall|q: SequenceNumber| #[trigger] without(order, seq).contains(q) <==> (order.contains(q) && q != seq) by {
            if order.contains(q) {
                let w = choose|w: int| 0 <= w < order.len() && order[w] == q;
            }
        }
    }
}

/// Taking out an entry that is not there changes nothing.
pub proof fn lemma_without_absent(order: Seq<SequenceNumber>, seq: SequenceNumber)
    requires
        !order.contains(seq),
    ensures
        without(order, seq) == order,
    decreases order.len(),
{
    if order.len() > 0 {
        assert(!order.drop_last().contains(seq)) by {
            if order.drop_last().contains(seq) {
                let w = choose|w: int| 0 <= w < order.drop_last().len() && order.drop_last()[w] == seq;
                assert(order[w] == seq);
            }
        }
        lemma_without_absent(order.drop_last(), seq);
        assert(order.last() != seq);
        assert(order.drop_last().push(order.last()) =~= order);
    }
}

/// The arrival order lists each early response once, and nothing else.
pub open spec fn lists_exactly<R>(order: Seq<SequenceNumber>, loose: Map<SequenceNumber, R>) -> bool {
    &&& order.no_duplicates()
    &&& forall|q: SequenceNumber| #[trigger] order.contains(q) <==> loose.contains_key(q)
}

/// The state of one client's calls: senders awaiting a response, by sequence
/// number, and responses that came before their request was recorded.
/// A delivery `(sender, response)` that a method returns is the one write of
/// that response into that sender's promise; the caller performs it.
pub struct ClientRequestBoard<S, R> {
    active_requests: HashMap<SequenceNumber, S>,
    loose_responses: HashMap<SequenceNumber, R>,
    loose_order: Vec<SequenceNumber>,
}

impl<S, R> ClientRequestBoard<S, R> {
    /// The awaited senders and the early responses, by sequence number.
    pub closed spec fn view(&self) -> BoardView<S, R> {
        BoardView { active: self.active_requests@, loose: self.loose_responses@ }
    }

    /// The sequence numbers of the early responses, oldest first.
    pub closed spec fn arrival(&self) -> Seq<SequenceNumber> {
        self.loose_order@
    }

    /// No sequence number is both awaited and answered, and the arrival
    /// order lists exactly the early responses.
    pub open spec fn wf(&self) -> bool {
        &&& self.view().wf()
        &&& lists_exactly(self.arrival(), self.view().loose)
    }

    /// Take `seq` out of the arrival order.
    fn forget_arrival(&mut self, seq: SequenceNumber)
        ensures
            final(self).arrival() == without(old(self).arrival(), seq),
            final(self).view() == old(self).view(),
    {
        let mut kept: Vec<SequenceNumber> = Vec::new();
        let mut i: usize = 0;
        while i < self.loose_order.len()
            invariant
                i <= self.loose_order@.len(),
                self.loose_order@ == old(self).arrival(),
                self.view() == old(self).view(),
                kept@ == without(self.loose_order@.take(i as int), seq),
            decreases self.loose_order@.len() - i,
        {
            proof {
                assert(self.loose_order@.take(i + 1).drop_last() =~= self.loose_order@.take(i as int));
            }
            let q = self.loose_order[i];
            if q != seq {
                kept.push(q);
            }
            i = i + 1;
        }
        proof {
            assert(self.loose_order@.take(i as int) =~= self.loose_order@);
        }
        self.loose_order = kept;
    }

    /// A board with nothing awaited and nothing kept.
    pub fn new() -> (r: Self)
        ensures
            r.wf(),
            r.view().active == Map::<SequenceNumber, S>::empty(),
            r.view().loose == Map::<SequenceNumber, R>::empty(),
            r.arrival() == Seq::<SequenceNumber>::empty(),
    {
        ClientRequestBoard {
            active_requests: HashMap::new(),
            loose_responses: HashMap::new(),
            loose_order: Vec::new(),
        }
    }

    /// Record that the request with sequence number `seq` was sent for
    /// `sender`. If its response already came, the delivery is returned at
    /// once and nothing is inserted.
    pub fn new_request(&mut self, seq: SequenceNumber, sender: S) -> (r: Option<(S, R)>)
        requires
            old(self).wf(),
        ensures
            final(self).wf(),
            (final(self).view(), r) == old(self).view().after_new_request(seq, sender),
            final(self).arrival() == without(old(self).arrival(), seq),
    {
        proof {
            lemma_without(self.arrival(), seq);
        }
        let ghost before = self.loose_responses@;
        let removed = self.loose_responses.remove(&seq);
        assert(self.loose_responses@ == before.remove(seq));
        match removed {
            Some(response) => {
                assert(before.contains_key(seq));
                assert(response == before[seq]);
                assert(self.view().loose == old(self).view().loose.remove(seq));
                assert(self.view().active == old(self).view().active);
                self.forget_arrival(seq);
                proof {
                    lemma_disjoint_kept(old(self).view(), self.view(), seq);
                }
                Some((sender, response))
            },
            None => {
                assert(!before.contains_key(seq));
                self.active_requests.insert(seq, sender);
                assert(self.view().active == old(self).view().active.insert(seq, sender));
                assert(self.view().loose == old(self).view().loose);
                assert(!self.arrival().contains(seq));
                assert(self.arrival() =~= without(old(self).arrival(), seq)) by {
                    lemma_without_absent(self.arrival(), seq);
                }
                proof {
                    lemma_disjoint_kept(old(self).view(), self.view(), seq);
                }
                None
            },
        }
    }

    /// The response `data` for `seq` came: deliver it to the waiting sender,
    /// or keep it until the request is recorded.
    pub fn response_arrived(&mut self, seq: SequenceNumber, data: R) -> (r: Option<(S, R)>)
        requires
            old(self).wf(),
        ensures
            final(self).wf(),
            (final(self).view(), r) == old(self).view().after_response(seq, data),
            final(self).arrival() == if old(self).view().active.contains_key(seq) || old(self).view().loose.contains_key(seq) {
                old(self).arrival()
            } else {
                old(self).arrival().push(seq)
            },
    {
        let ghost before = self.active_requests@;
        let removed = self.active_requests.remove(&seq);
        assert(self.active_requests@ == before.remove(seq));
        match removed {
            Some(sender) => {
                assert(before.contains_key(seq));
                assert(sender == before[seq]);
                assert(self.view().active == old(self).view().active.remove(seq));
                assert(self.view().loose == old(self).view().loose);
                proof {
                    lemma_disjoint_kept(old(self).view(), self.view(), seq);
                }
                Some((sender, data))
            },
            None => {
                assert(!before.contains_key(seq));
                self.loose_responses.insert(seq, data);
                assert(self.view().active == old(self).view().active);
                assert(self.view().loose == old(self).view().loose.insert(seq, data));
                if !self.arrival_contains(seq) {
                    self.loose_order.push(seq);
                    proof {
                        assert forall|q: SequenceNumber| #[trigger] self.arrival().contains(q) <==> (old(self).arrival().contains(q) || q == seq) by {
                            if old(self).arrival().contains(q) {
                                let w = choose|w: int| 0 <= w < old(self).arrival().len() && old(self).arrival()[w] == q;
                                assert(self.arrival()[w] == q);
                            }
                            if q == seq {
                                assert(self.arrival().last() == seq);
                            }
                        }
                    }
                }
                proof {
                    lemma_disjoint_kept(old(self).view(), self.view(), seq);
                }
                None
            },
        }
    }

    /// Handle the outcome of one take on the ready client: a response with
    /// its sequence number goes to [`ClientRequestBoard::response_arrived`];
    /// a take that found nothing is a spurious wakeup and changes nothing;
    /// any other error changes nothing and is handed back to be reported.
    pub fn execute(&mut self, taken: Result<(R, SequenceNumber), RclrsError>) -> (r: Result<
        Option<(S, R)>,
        RclrsError,
    >)
        requires
            old(self).wf(),
        ensures
            final(self).wf(),
            match taken {
                Ok((data, seq)) => {
                    let (b, d) = old(self).view().after_response(seq, data);
                    final(self).view() == b && r == Ok::<Option<(S, R)>, RclrsError>(d)
                },
                Err(RclrsError::TakeFailed) => {
                    final(self).view() == old(self).view() && r == Ok::<Option<(S, R)>, RclrsError>(None)
                },
                Err(e) => {
                    final(self).view() == old(self).view() && r == Err::<Option<(S, R)>, RclrsError>(e)
                },
            },
    {
        match taken {
            Ok((data, seq)) => Ok(self.response_arrived(seq, data)),
            Err(RclrsError::TakeFailed) => Ok(None),
            Err(e) => Err(e),
        }
    }

    /// The outcome of sending one queued request: with the sequence number
    /// that the middleware gave it, the sender goes to
    /// [`ClientRequestBoard::new_request`]; if the send failed, the board is
    /// left as it was and the sender is handed back with the error, so that
    /// its promise can be failed.
    pub fn request_sent(&mut self, sent: Result<SequenceNumber, RclrsError>, sender: S) -> (r: Result<
        Option<(S, R)>,
        (S, RclrsError),
    >)
        requires
            old(self).wf(),
        ensures
            final(self).wf(),
            match sent {
                Ok(seq) => {
                    let (b, d) = old(self).view().after_new_request(seq, sender);
                    final(self).view() == b && r == Ok::<Option<(S, R)>, (S, RclrsError)>(d)
                },
                Err(e) => {
                    final(self).view() == old(self).view() && r == Err::<Option<(S, R)>, (S, RclrsError)>((sender, e))
                },
            },
    {
        match sent {
            Ok(seq) => Ok(self.new_request(seq, sender)),
            Err(e) => Err((sender, e)),
        }
    }

    /// Stop waiting for the response to `seq`: its sender, if one waits, is
    /// handed back. Whether one waited is the answer's `is_some`.
    pub fn remove_pending_request(&mut self, seq: SequenceNumber) -> (r: Option<S>)
        requires
            old(self).wf(),
        ensures
            final(self).wf(),
            final(self).view().active == old(self).view().active.remove(seq),
            final(self).view().loose == old(self).view().loose,
            r == if old(self).view().active.contains_key(seq) {
                Some(old(self).view().active[seq])
            } else {
                None
            },
    {
        let ghost before = self.active_requests@;
        let removed = self.active_requests.remove(&seq);
        assert(self.active_requests@ == before.remove(seq));
        assert(removed is Some ==> before.contains_key(seq) && removed->0 == before[seq]);
        assert(self.view().active == old(self).view().active.remove(seq));
        assert(self.view().loose == old(self).view().loose);
        proof {
            lemma_disjoint_kept(old(self).view(), self.view(), seq);
        }
        removed
    }

    /// Drop a response kept for `seq` whose request was never recorded.
    pub fn remove_loose_response(&mut self, seq: SequenceNumber) -> (r: Option<R>)
        requires
            old(self).wf(),
        ensures
            final(self).wf(),
            final(self).view().loose == old(self).view().loose.remove(seq),
            final(self).view().active == old(self).view().active,
            final(self).arrival() == without(old(self).arrival(), seq),
            r == if old(self).view().loose.contains_key(seq) {
                Some(old(self).view().loose[seq])
            } else {
                None
            },
    {
        let ghost before = self.loose_responses@;
        let removed = self.loose_responses.remove(&seq);
        assert(self.loose_responses@ == before.remove(seq));
        assert(removed is Some ==> before.contains_key(seq) && removed->0 == before[seq]);
        assert(self.view().loose == old(self).view().loose.remove(seq));
        assert(self.view().active == old(self).view().active);
        self.forget_arrival(seq);
        proof {
            lemma_without(old(self).arrival(), seq);
            lemma_disjoint_kept(old(self).view(), self.view(), seq);
        }
        removed
    }

    /// Stop waiting for every response; returns how many senders waited.
    pub fn prune_pending_requests(&mut self) -> (r: usize)
        requires
            old(self).wf(),
        ensures
            final(self).wf(),
            r == old(self).view().active.len(),
            final(self).view().active == Map::<SequenceNumber, S>::empty(),
            final(self).view().loose == old(self).view().loose,
            final(self).arrival() == old(self).arrival(),
    {
        let n = self.active_requests.len();
        self.active_requests.clear();
        n
    }

    /// Whether `seq` is in the arrival order.
    fn arrival_contains(&self, seq: SequenceNumber) -> (r: bool)
        ensures
            r == self.arrival().contains(seq),
    {
        let mut i: usize = 0;
        while i < self.loose_order.len()
            invariant
                i <= self.loose_order@.len(),
                forall|j: int| 0 <= j < i ==> self.loose_order@[j] != seq,
            decreases self.loose_order@.len() - i,
        {
            if self.loose_order[i] == seq {
                return true;
            }
            i = i + 1;
        }
        false
    }

    /// Bound the early responses kept: drop the oldest until at most `keep`
    /// are left, and return how many were dropped. Their requests, if they are
    /// ever recorded, then wait for a response that will not come again.
    pub fn evict_loose_responses(&mut self, keep: usize) -> (r: usize)
        requires
            old(self).wf(),
        ensures
            final(self).wf(),
            r == if old(self).arrival().len() > keep { old(self).arrival().len() - keep } else { 0 },
            final(self).arrival() == old(self).arrival().skip(r as int),
            final(self).view().loose == old(self).view().loose.remove_keys(old(self).arrival().take(r as int).to_set()),
            final(self).view().active == old(self).view().active,
    {
        let ghost order = self.arrival();
        let total = self.loose_order.len();
        let mut dropped: usize = 0;
        while self.loose_order.len() > keep
            invariant
                total == order.len(),
                order == old(self).arrival(),
                dropped <= order.len(),
                self.loose_order@ == order.skip(dropped as int),
                self.view().active == old(self).view().active,
                self.view().loose == old(self).view().loose.remove_keys(order.take(dropped as int).to_set()),
                order.len() > keep ==> dropped <= order.len() - keep,
                order.len() <= keep ==> dropped == 0,
            decreases self.loose_order@.len(),
        {
            let seq = self.loose_order.remove(0);
            assert(seq == order[dropped as int]);
            let ghost before = self.loose_responses@;
            self.loose_responses.remove(&seq);
            assert(self.loose_responses@ == before.remove(seq));
            proof {
                assert(order.take(dropped + 1).to_set() =~= order.take(dropped as int).to_set().insert(seq)) by {
                    assert(order.take(dropped + 1) =~= order.take(dropped as int).push(seq));
                    lemma_push_contains(order.take(dropped as int), seq);
                }
                assert(self.view().loose =~= old(self).view().loose.remove_keys(order.take(dropped + 1).to_set()));
                assert(self.loose_order@ =~= order.skip(dropped + 1));
            }
            dropped = dropped + 1;
        }
        proof {
            assert forall|q: SequenceNumber| #[trigger] self.arrival().contains(q) <==> self.view().loose.contains_key(q) by {
                if self.arrival().contains(q) {
                    let w = choose|w: int| 0 <= w < self.arrival().len() && self.arrival()[w] == q;
                    assert(order[w + dropped] == q);
                    assert(old(self).arrival().contains(q));
                    assert(old(self).view().loose.contains_key(q));
                    if order.take(dropped as int).to_set().contains(q) {
                        let v = choose|v: int| 0 <= v < dropped && order.take(dropped as int)[v] == q;
                        assert(order[v] == order[w + dropped]);
                    }
                }
                if self.view().loose.contains_key(q) {
                    assert(old(self).view().loose.contains_key(q));
                    assert(order.contains(q));
                    let w = choose|w: int| 0 <= w < order.len() && order[w] == q;
                    if w < dropped {
                        assert(order.take(dropped as int)[w] == q);
                        assert(order.take(dropped as int).to_set().contains(q));
                    } else {
                        assert(self.arrival()[w - dropped] == q);
                    }
                }
            }
            lemma_disjoint_kept(old(self).view(), self.view(), 0);
        }
        dropped
    }

    /// Whether a sender waits for `seq`.
    pub fn is_pending(&self, seq: SequenceNumber) -> (r: bool)
        ensures
            r == self.view().active.contains_key(seq),
    {
        self.active_requests.contains_key(&seq)
    }

    /// Whether a response for `seq` is kept.
    pub fn has_loose_response(&self, seq: SequenceNumber) -> (r: bool)
        ensures
            r == self.view().loose.contains_key(seq),
    {
        self.loose_responses.contains_key(&seq)
    }
}

/// A service client: the calls waiting to be sent, and the board that
/// matches their responses, with each call's result delivered through a
/// [`Promise`].
#[verifier::reject_recursive_types(R)]
pub struct Client<Q, R> {
    sender: ClientRequestSender<Q, PromiseSender<R>>,
    board: ClientRequestBoard<PromiseSender<R>, R>,
}

impl<Q, R> Client<Q, R> {
    /// The calls waiting to be sent, oldest first.
    pub closed spec fn queued(&self) -> Seq<(Q, PromiseSender<R>)> {
        self.sender.queued()
    }

    /// The awaited and the early responses.
    pub closed spec fn board(&self) -> BoardView<PromiseSender<R>, R> {
        self.board.view()
    }

    /// The board is well formed.
    pub closed spec fn wf(&self) -> bool {
        self.board.wf()
    }

    /// A client with no calls.
    pub fn new() -> (r: Self)
        ensures
            r.wf(),
            r.queued() == Seq::<(Q, PromiseSender<R>)>::empty(),
            r.board().active == Map::<SequenceNumber, PromiseSender<R>>::empty(),
            r.board().loose == Map::<SequenceNumber, R>::empty(),
    {
        Client { sender: ClientRequestSender::new(), board: ClientRequestBoard::new() }
    }

    /// Queue a call with `request`, to be sent on the poller thread, and hand
    /// back the promise of its response. Dropping the promise does not take
    /// the call back.
    pub fn call(&mut self, request: Q) -> (r: Promise<R>)
        ensures
            final(self).queued().len() == old(self).queued().len() + 1,
            final(self).queued().drop_last() == old(self).queued(),
            final(self).queued().last().0 == request,
            final(self).board() == old(self).board(),
    {
        let (sender, promise) = promise_channel();
        self.sender.send(request, sender);
        proof {
            assert(self.queued().drop_last() =~= old(self).queued());
        }
        promise
    }

    /// Take every queued call, oldest first, to be sent.
    pub fn take_requests(&mut self) -> (r: Vec<(Q, PromiseSender<R>)>)
        ensures
            r@ == old(self).queued(),
            final(self).queued() == Seq::<(Q, PromiseSender<R>)>::empty(),
            final(self).board() == old(self).board(),
    {
        self.sender.take_requests()
    }

    /// Record the outcome of sending one call (see
    /// [`ClientRequestBoard::request_sent`]). A response that already came is
    /// written into the promise at once. When the send failed the promise's
    /// sender is dropped, which fails the promise, and the error is returned.
    pub fn request_sent(&mut self, sent: Result<SequenceNumber, RclrsError>, sender: PromiseSender<R>) -> (r: Result<(), RclrsError>)
        requires
            old(self).wf(),
        ensures
            final(self).wf(),
            final(self).queued() == old(self).queued(),
            match sent {
                Ok(seq) => final(self).board() == old(self).board().after_new_request(seq, sender).0 && r is Ok,
                Err(e) => final(self).board() == old(self).board() && r == Err::<(), RclrsError>(e),
            },
    {
        match self.board.request_sent(sent, sender) {
            Ok(Some((sender, response))) => {
                let _ = fulfil(sender, response);
                Ok(())
            },
            Ok(None) => Ok(()),
            Err((_sender, e)) => Err(e),
        }
    }

    /// Handle the outcome of one take on the ready client (see
    /// [`ClientRequestBoard::execute`]); a matched response is written into
    /// its promise.
    pub fn response_taken(&mut self, taken: Result<(R, SequenceNumber), RclrsError>) -> (r: Result<(), RclrsError>)
        requires
            old(self).wf(),
        ensures
            final(self).wf(),
            final(self).queued() == old(self).queued(),
            match taken {
                Ok((data, seq)) => final(self).board() == old(self).board().after_response(seq, data).0 && r is Ok,
                Err(RclrsError::TakeFailed) => final(self).board() == old(self).board() && r is Ok,
                Err(e) => final(self).board() == old(self).board() && r == Err::<(), RclrsError>(e),
            },
    {
        match self.board.execute(taken) {
            Ok(Some((sender, response))) => {
                let _ = fulfil(sender, response);
                Ok(())
            },
            Ok(None) => Ok(()),
            Err(e) => Err(e),
        }
    }
}

} // verus!
