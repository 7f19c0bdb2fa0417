//! Exact-byte relay with bounded nonce-lane concurrency and conservative recovery.

use crate::bytes;
use crate::evidence;
use crate::evidence::model;
use crate::evidence::{Completed, Dispatch};
use crate::fold;
use crate::foreign;
use crate::state;
use crate::state::{Attempt, AttemptModel, BlockCursor, Disposition, FailureModel, OccurrenceId, RpcFailure};
use crate::store;
use crate::table;
use crate::table::Table;
use crate::text;
use crate::words;
use crate::words::B256;
use vstd::prelude::*;
use vstd::string::StringExecFns;

verus! {

// Answers of the target.

/// The disposition of a failed submission. Without an RPC response the delivery is unknown; a
/// transaction that the target has already is delivered; after an uncertain delivery a used nonce
/// may be its own; anything else is a rejection.
pub open spec fn classified(rpc_response: bool, message: Seq<char>, uncertain: bool) -> Disposition {
    let message = text::lowered(message);
    if !rpc_response {
        Disposition::Ambiguous
    } else if text::mentions(message, "already known"@) || text::mentions(message, "already imported"@) {
        Disposition::AlreadyKnown
    } else if uncertain && (text::mentions(message, "nonce too low"@) || text::mentions(
        message,
        "nonce is too low"@,
    )) {
        Disposition::PossiblyIncluded
    } else {
        Disposition::Rejected
    }
}

/// The disposition of a failed submission.
pub fn classify_response(rpc_response: bool, message: &str, uncertain: bool) -> (r: Disposition)
    ensures
        r == classified(rpc_response, message@, uncertain),
{
    if !rpc_response {
        return Disposition::Ambiguous;
    }
    let message = message.to_ascii_lowercase();
    let message = message.as_str();
    if foreign::contains_text(message, "already known") || foreign::contains_text(
        message,
        "already imported",
    ) {
        Disposition::AlreadyKnown
    } else if uncertain && (foreign::contains_text(message, "nonce too low")
        || foreign::contains_text(message, "nonce is too low")) {
        Disposition::PossiblyIncluded
    } else {
        Disposition::Rejected
    }
}

/// How a disposition is named in metrics and logs.
pub open spec fn name_of(disposition: Disposition) -> Seq<char> {
    match disposition {
        Disposition::Accepted => "accepted"@,
        Disposition::AlreadyKnown => "already_known"@,
        Disposition::Rejected => "rejected"@,
        Disposition::PossiblyIncluded => "possibly_included"@,
        Disposition::Ambiguous => "ambiguous"@,
    }
}

/// How a disposition is named in metrics and logs.
pub fn disposition_name(disposition: Disposition) -> (r: &'static str)
    ensures
        r@ == name_of(disposition),
{
    match disposition {
        Disposition::Accepted => "accepted",
        Disposition::AlreadyKnown => "already_known",
        Disposition::Rejected => "rejected",
        Disposition::PossiblyIncluded => "possibly_included",
        Disposition::Ambiguous => "ambiguous",
    }
}

/// Every disposition has a name of its own.
pub proof fn law_dispositions_have_their_names()
    ensures
        name_of(Disposition::Accepted) == "accepted"@,
        name_of(Disposition::AlreadyKnown) == "already_known"@,
        name_of(Disposition::Rejected) == "rejected"@,
        name_of(Disposition::PossiblyIncluded) == "possibly_included"@,
        name_of(Disposition::Ambiguous) == "ambiguous"@,
{
}

/// Transport trouble is never read as a rejection, whatever the message says.
pub proof fn law_transport_trouble_is_ambiguous(message: Seq<char>, uncertain: bool)
    ensures
        classified(false, message, uncertain) == Disposition::Ambiguous,
{
}

/// A used nonce is read as the transaction's own only after an uncertain delivery: on a fresh
/// submission no message makes it possibly included, and no response is ever ambiguous.
pub proof fn law_nonce_ambiguity_needs_an_uncertain_delivery(message: Seq<char>)
    ensures
        classified(true, message, false) != Disposition::PossiblyIncluded,
        classified(true, message, false) != Disposition::Ambiguous,
        classified(true, message, true) != Disposition::Ambiguous,
        classified(true, message, true) != Disposition::PossiblyIncluded ==> classified(true, message, true)
            == classified(true, message, false),
{
}

/// An answer is read by its words, in any case: a transaction that is known or imported already is
/// delivered, whatever else is said; a nonce that is too low, after an uncertain delivery, may be the
/// transaction's own; every other answer is a rejection.
pub proof fn law_an_answer_is_read_by_its_words(message: Seq<char>, uncertain: bool)
    ensures
        ({
            let said = text::lowered(message);
            let known = text::mentions(said, "already known"@) || text::mentions(said, "already imported"@);
            let used = text::mentions(said, "nonce too low"@) || text::mentions(said, "nonce is too low"@);
            let disposition = classified(true, message, uncertain);
            &&& disposition == Disposition::AlreadyKnown <==> known
            &&& disposition == Disposition::PossiblyIncluded <==> !known && used && uncertain
            &&& disposition == Disposition::Rejected <==> !known && !(used && uncertain)
        }),
{
}

/// What the target answered to one request.
#[derive(Debug)]
pub enum Reply {
    /// It took the transaction and gave its hash.
    Hash(B256),
    /// It answered with an RPC error.
    Response { code: i64, message: String, data: Option<String> },
    /// No answer came.
    Transport(String),
}

/// What a `Reply` says.
pub enum ReplyModel {
    Hash(B256),
    Response { code: i64, message: Seq<char>, data: Option<Seq<char>> },
    Transport(Seq<char>),
}

impl View for Reply {
    type V = ReplyModel;

    open spec fn view(&self) -> ReplyModel {
        match *self {
            Reply::Hash(hash) => ReplyModel::Hash(hash),
            Reply::Response { code, message, data } => ReplyModel::Response {
                code,
                message: message@,
                data: text::view(data),
            },
            Reply::Transport(message) => ReplyModel::Transport(message@),
        }
    }
}

/// The disposition of an answer and the failure that is kept of it.
pub open spec fn judged(reply: ReplyModel, hash: B256, uncertain: bool) -> (Disposition, Option<FailureModel>) {
    match reply {
        ReplyModel::Hash(given) => if given == hash {
            (Disposition::Accepted, None)
        } else {
            (
                Disposition::Ambiguous,
                Some(
                    FailureModel {
                        code: None,
                        message: "target returned unexpected hash "@ + ("0x"@ + foreign::hex(given.bytes())),
                        data: None,
                    },
                ),
            )
        },
        ReplyModel::Response { code, message, data } => (
            classified(true, message, uncertain),
            Some(
                FailureModel {
                    code: Some(code),
                    message: store::bounded(message),
                    data: match data {
                        Some(data) => Some(store::bounded(data)),
                        None => None,
                    },
                },
            ),
        ),
        ReplyModel::Transport(message) => (
            Disposition::Ambiguous,
            Some(FailureModel { code: None, message: store::bounded(message), data: None }),
        ),
    }
}

/// The disposition of an answer and the failure that is kept of it.
pub fn judge(reply: Reply, hash: B256, uncertain: bool) -> (r: (Disposition, Option<RpcFailure>))
    ensures
        r.0 == judged(reply@, hash, uncertain).0,
        r.1 is Some <==> judged(reply@, hash, uncertain).1 is Some,
        r.1 matches Some(failure) ==> judged(reply@, hash, uncertain).1 == Some(failure@),
{
    match reply {
        Reply::Hash(given) => if given == hash {
            (Disposition::Accepted, None)
        } else {
            let mut message = String::from_str("target returned unexpected hash ");
            let shown = foreign::hash_text(&given.to_array());
            message.append(shown.as_str());
            (Disposition::Ambiguous, Some(RpcFailure { code: None, message, data: None }))
        },
        Reply::Response { code, message, data } => {
            let disposition = classify_response(true, message.as_str(), uncertain);
            let data = match data {
                Some(data) => Some(store::bounded_error(data)),
                None => None,
            };
            (
                disposition,
                Some(
                    RpcFailure {
                        code: Some(code),
                        message: store::bounded_error(message),
                        data,
                    },
                ),
            )
        },
        Reply::Transport(message) => (
            classify_response(false, message.as_str(), uncertain),
            Some(RpcFailure { code: None, message: store::bounded_error(message), data: None }),
        ),
    }
}

// One submission.

/// The longest pause between two attempts is this many doublings of the configured delay.
pub const MAX_DOUBLINGS: u32 = 8;

/// Two to the power `n`.
pub open spec fn power(n: nat) -> nat
    decreases n,
{
    if n == 0 {
        1
    } else {
        2 * power((n - 1) as nat)
    }
}

/// How often the configured delay is waited before the attempt after `retry`.
pub open spec fn pause_factor(retry: u32) -> nat {
    power(
        if retry <= MAX_DOUBLINGS {
            retry as nat
        } else {
            MAX_DOUBLINGS as nat
        },
    )
}

/// How often the configured delay is waited before the attempt after `retry`: doubled for each
/// retry, up to a limit.
pub fn backoff(retry: u32) -> (r: u32)
    ensures
        r == pause_factor(retry),
        1 <= r <= 256,
{
    let doublings: u32 = if retry <= MAX_DOUBLINGS {
        retry
    } else {
        MAX_DOUBLINGS
    };
    let mut factor: u32 = 1;
    let mut i: u32 = 0;
    proof {
        reveal_with_fuel(power, 10);
    }
    while i < doublings
        invariant
            i <= doublings <= MAX_DOUBLINGS,
            factor == power(i as nat),
            1 <= factor <= 256,
            power(8) == 256,
            forall|a: nat, b: nat| a <= b <= 8 ==> #[trigger] power(a) <= #[trigger] power(b),
        decreases doublings - i,
    {
        assert(power((i + 1) as nat) <= power(8));
        factor = factor * 2;
        i += 1;
    }
    factor
}

/// What to do after an answer was recorded.
#[derive(Clone, Copy, Debug, PartialEq, Eq, Structural)]
pub enum Step {
    /// The submission has its outcome.
    Finish,
    /// Wait this many times the configured delay, and unless the service stops meanwhile send the
    /// same bytes again.
    Retry { factor: u32 },
}

/// One occurrence on its way to the target: what was sent so far and how it was answered.
#[derive(Debug)]
pub struct Submission {
    pub id: OccurrenceId,
    pub hash: B256,
    pub queued_at_ms: u64,
    pub target_observed: BlockCursor,
    /// An earlier request may have reached the target.
    pub uncertain: bool,
    /// How often the request was repeated.
    pub retry: u32,
    pub retries: u32,
    pub attempts: Vec<Attempt>,
}

/// What a `Submission` says.
#[verifier::ext_equal]
pub struct SubmissionModel {
    pub id: OccurrenceId,
    pub hash: B256,
    pub queued_at_ms: u64,
    pub target_observed: BlockCursor,
    pub uncertain: bool,
    pub retry: u32,
    pub retries: u32,
    pub attempts: Seq<AttemptModel>,
}

impl View for Submission {
    type V = SubmissionModel;

    open spec fn view(&self) -> SubmissionModel {
        SubmissionModel {
            id: self.id,
            hash: self.hash,
            queued_at_ms: self.queued_at_ms,
            target_observed: self.target_observed,
            uncertain: self.uncertain,
            retry: self.retry,
            retries: self.retries,
            attempts: state::attempts_view(self.attempts@),
        }
    }
}

impl SubmissionModel {
    /// The submission of a dispatch before its first request.
    pub open spec fn begun(dispatch: model::DispatchModel, retries: u32) -> SubmissionModel {
        SubmissionModel {
            id: dispatch.id,
            hash: dispatch.transaction.hash,
            queued_at_ms: dispatch.queued_at_ms,
            target_observed: dispatch.target_observed,
            uncertain: dispatch.uncertain_delivery,
            retry: 0,
            retries,
            attempts: Seq::empty(),
        }
    }

    /// One request for each repetition was answered, all of them ambiguously, and the next is due.
    pub open spec fn due(self) -> bool {
        &&& self.retry <= self.retries
        &&& self.attempts.len() == self.retry
        &&& forall|i: int| 0 <= i < self.attempts.len() ==> (#[trigger] self.attempts[i]).disposition == Disposition::Ambiguous
    }

    /// The attempt that an answer makes.
    pub open spec fn attempt(self, reply: ReplyModel, started_at_ms: u64, completed_at_ms: u64) -> AttemptModel {
        let (disposition, failure) = judged(reply, self.hash, self.uncertain);
        AttemptModel {
            queued_at_ms: self.queued_at_ms,
            target_observed: self.target_observed,
            started_at_ms,
            completed_at_ms,
            disposition,
            failure,
        }
    }

    /// Whether the request is repeated after an answer: only an ambiguous one, while retries are
    /// left and the service runs.
    pub open spec fn repeats(self, reply: ReplyModel, stopped: bool) -> bool {
        &&& judged(reply, self.hash, self.uncertain).0 == Disposition::Ambiguous
        &&& !stopped
        &&& self.retry < self.retries
    }

    /// The submission after an answer.
    pub open spec fn answered(
        self,
        reply: ReplyModel,
        started_at_ms: u64,
        completed_at_ms: u64,
        stopped: bool,
    ) -> SubmissionModel {
        let attempts = self.attempts.push(self.attempt(reply, started_at_ms, completed_at_ms));
        let ambiguous = judged(reply, self.hash, self.uncertain).0 == Disposition::Ambiguous;
        SubmissionModel {
            attempts,
            uncertain: self.uncertain || (ambiguous && !stopped),
            retry: if self.repeats(reply, stopped) {
                (self.retry + 1) as u32
            } else {
                self.retry
            },
            ..self
        }
    }
}

impl Submission {
    /// The submission of a dispatch before its first request.
    pub fn begin(dispatch: &Dispatch, retries: u32) -> (r: Submission)
        ensures
            r@ == SubmissionModel::begun(dispatch@, retries),
            r@.due(),
    {
        let r = Submission {
            id: dispatch.id,
            hash: dispatch.transaction.hash,
            queued_at_ms: dispatch.queued_at_ms,
            target_observed: dispatch.target_observed,
            uncertain: dispatch.uncertain_delivery,
            retry: 0,
            retries,
            attempts: Vec::new(),
        };
        assert(r@ =~= SubmissionModel::begun(dispatch@, retries));
        r
    }

    /// Records the answer to the request that was due and tells what comes next.
    pub fn answer(
        &mut self,
        reply: Reply,
        started_at_ms: u64,
        completed_at_ms: u64,
        stopped: bool,
    ) -> (r: Step)
        requires
            old(self)@.due(),
        ensures
            final(self)@ == old(self)@.answered(reply@, started_at_ms, completed_at_ms, stopped),
            r == (if old(self)@.repeats(reply@, stopped) {
                Step::Retry { factor: pause_factor(old(self)@.retry) as u32 }
            } else {
                Step::Finish
            }),
            r is Retry ==> final(self)@.due(),
            final(self)@.attempts.len() <= final(self)@.retries + 1,
    {
        let ghost before = self@;
        let (disposition, failure) = judge(reply, self.hash, self.uncertain);
        let attempt = Attempt {
            queued_at_ms: self.queued_at_ms,
            target_observed: self.target_observed,
            started_at_ms,
            completed_at_ms,
            disposition,
            failure,
        };
        let ghost made = attempt@;
        assert(made =~= before.attempt(reply@, started_at_ms, completed_at_ms));
        self.attempts.push(attempt);
        assert(state::attempts_view(self.attempts@) =~= before.attempts.push(made));
        if disposition != Disposition::Ambiguous || stopped {
            return Step::Finish;
        }
        self.uncertain = true;
        if self.retry < self.retries {
            let factor: u32 = backoff(self.retry);
            self.retry = self.retry + 1;
            proof {
                let attempts = self@.attempts;
                assert forall|i: int| 0 <= i < attempts.len() implies (#[trigger] attempts[i]).disposition == Disposition::Ambiguous by {
                    if i < before.attempts.len() {
                        assert(attempts[i] == before.attempts[i]);
                    }
                }
            }
            Step::Retry { factor }
        } else {
            Step::Finish
        }
    }

    /// The outcome of the submission.
    pub fn finish(self) -> (r: Completed)
        ensures
            r@ == (model::CompletedModel { id: self@.id, attempts: self@.attempts }),
    {
        Completed { id: self.id, attempts: self.attempts }
    }
}

/// A submission makes at most one attempt more than it has retries, and every attempt but its last
/// was ambiguous: a definite answer is never followed by another request.
pub proof fn law_only_ambiguous_attempts_are_repeated(
    submission: SubmissionModel,
    reply: ReplyModel,
    started_at_ms: u64,
    completed_at_ms: u64,
    stopped: bool,
)
    requires
        submission.due(),
    ensures
        ({
            let after = submission.answered(reply, started_at_ms, completed_at_ms, stopped);
            &&& 1 <= after.attempts.len() <= after.retries + 1
            &&& forall|i: int| 0 <= i < after.attempts.len() - 1 ==> (#[trigger] after.attempts[i]).disposition
                == Disposition::Ambiguous
            &&& submission.repeats(reply, stopped) <==> after.due()
        }),
{
    let after = submission.answered(reply, started_at_ms, completed_at_ms, stopped);
    assert forall|i: int| 0 <= i < after.attempts.len() - 1 implies (#[trigger] after.attempts[i]).disposition == Disposition::Ambiguous by {
        assert(after.attempts[i] == submission.attempts[i]);
    }
    if submission.repeats(reply, stopped) {
        assert forall|i: int| 0 <= i < after.attempts.len() implies (#[trigger] after.attempts[i]).disposition == Disposition::Ambiguous by {
            if i < submission.attempts.len() {
                assert(after.attempts[i] == submission.attempts[i]);
            }
        }
    }
}

/// Once a delivery is uncertain it stays so for the rest of the submission: a used nonce that is
/// reported later is never read as a fresh rejection.
pub proof fn law_an_ambiguous_attempt_makes_the_rest_uncertain(
    submission: SubmissionModel,
    reply: ReplyModel,
    started_at_ms: u64,
    completed_at_ms: u64,
    message: Seq<char>,
)
    requires
        submission.due(),
        submission.repeats(reply, false),
        text::mentions(text::lowered(message), "nonce too low"@),
    ensures
        ({
            let after = submission.answered(reply, started_at_ms, completed_at_ms, false);
            &&& after.uncertain
            &&& classified(true, message, after.uncertain) != Disposition::Rejected
        }),
{
}

/// Contracts speak of a submission and of an answer field by field as they are.
pub proof fn law_a_submission_says_what_it_holds(submission: Submission, reply: Reply)
    ensures
        submission@.id == submission.id,
        submission@.hash == submission.hash,
        submission@.queued_at_ms == submission.queued_at_ms,
        submission@.target_observed == submission.target_observed,
        submission@.uncertain == submission.uncertain,
        submission@.retry == submission.retry,
        submission@.retries == submission.retries,
        submission@.attempts.len() == submission.attempts@.len(),
        forall|i: int| 0 <= i < submission.attempts@.len() ==> #[trigger] submission@.attempts[i] == submission.attempts@[i]@,
        reply matches Reply::Hash(hash) ==> reply@ == ReplyModel::Hash(hash),
        reply matches Reply::Transport(message) ==> reply@ == ReplyModel::Transport(message@),
        reply matches Reply::Response { code, message, data } ==> {
            &&& reply@ is Response
            &&& reply@->code == code
            &&& reply@->message == message@
            &&& reply@->data is Some <==> data is Some
            &&& data matches Some(data) ==> reply@->data == Some(data@)
        },
{
}

/// The pause before the next attempt doubles from one delay on, up to 256 of them.
pub proof fn law_the_pause_doubles(retry: u32)
    ensures
        pause_factor(0) == 1,
        retry < 8 ==> pause_factor((retry + 1) as u32) == 2 * pause_factor(retry),
        retry >= 8 ==> pause_factor(retry) == 256,
{
    reveal_with_fuel(power, 10);
}

/// What the first answer to a dispatch is taken for. The dispatch says what is sent, when it was
/// queued and whether its delivery is uncertain already, and all of that counts: the hash is accepted
/// if and only if it is that of the dispatch; a used nonce is the transaction's own, possibly, if and
/// only if the dispatch is uncertain; no answer at all leaves the delivery open.
pub proof fn law_the_first_answer_is_that_of_the_dispatch(
    dispatch: model::DispatchModel,
    retries: u32,
    reply: ReplyModel,
    started_at_ms: u64,
    completed_at_ms: u64,
    stopped: bool,
)
    ensures
        ({
            let after = SubmissionModel::begun(dispatch, retries).answered(
                reply,
                started_at_ms,
                completed_at_ms,
                stopped,
            );
            let made = after.attempts[0];
            &&& after.id == dispatch.id
            &&& after.attempts.len() == 1
            &&& made.queued_at_ms == dispatch.queued_at_ms
            &&& made.target_observed == dispatch.target_observed
            &&& made.started_at_ms == started_at_ms
            &&& made.completed_at_ms == completed_at_ms
            &&& reply matches ReplyModel::Hash(given) ==> if given == dispatch.transaction.hash {
                made.disposition == Disposition::Accepted && made.failure is None
            } else {
                made.disposition == Disposition::Ambiguous && made.failure is Some
            }
            &&& reply is Transport ==> made.disposition == Disposition::Ambiguous
            &&& reply matches ReplyModel::Response { code, message, data } ==> {
                let said = text::lowered(message);
                let known = text::mentions(said, "already known"@) || text::mentions(said, "already imported"@);
                let used = text::mentions(said, "nonce too low"@) || text::mentions(said, "nonce is too low"@);
                &&& made.disposition == Disposition::AlreadyKnown <==> known
                &&& made.disposition == Disposition::PossiblyIncluded <==> !known && used && dispatch.uncertain_delivery
                &&& made.disposition == Disposition::Rejected <==> !known && !(used && dispatch.uncertain_delivery)
                &&& made.failure is Some
            }
        }),
{
}

/// Of an answer that is no acceptance the record keeps what the node said: its code, and the first
/// 4096 characters of its message and of its data. Where no answer came there is no code.
pub proof fn law_what_the_node_said_is_kept(
    submission: SubmissionModel,
    reply: ReplyModel,
    started_at_ms: u64,
    completed_at_ms: u64,
)
    ensures
        ({
            let made = submission.attempt(reply, started_at_ms, completed_at_ms);
            &&& reply matches ReplyModel::Response { code, message, data } ==> made.failure is Some && {
                let kept = made.failure->0;
                &&& kept.code == Some(code)
                &&& kept.message == message.take(if message.len() <= 4096 { message.len() as int } else { 4096 })
                &&& data is None <==> kept.data is None
                &&& data matches Some(text) ==> kept.data == Some(
                    text.take(if text.len() <= 4096 { text.len() as int } else { 4096 }),
                )
            }
            &&& reply matches ReplyModel::Transport(message) ==> made.failure is Some && {
                let kept = made.failure->0;
                &&& kept.code is None
                &&& kept.data is None
                &&& kept.message == message.take(if message.len() <= 4096 { message.len() as int } else { 4096 })
            }
            &&& reply matches ReplyModel::Hash(given) ==> {
                &&& made.failure is None <==> given == submission.hash
                &&& made.failure matches Some(kept) ==> kept.code is None && kept.data is None && kept.message
                    == "target returned unexpected hash 0x"@ + foreign::hex(given.bytes())
            }
        }),
{
    reveal_strlit("target returned unexpected hash 0x");
    reveal_strlit("target returned unexpected hash ");
    reveal_strlit("0x");
    assert("target returned unexpected hash 0x"@ =~= "target returned unexpected hash "@ + "0x"@);
    if let ReplyModel::Hash(given) = reply {
        let shown = foreign::hex(given.bytes());
        assert("target returned unexpected hash "@ + ("0x"@ + shown) =~= "target returned unexpected hash "@ + "0x"@ + shown);
    }
    if let ReplyModel::Response { code, message, data } = reply {
        assert(message.take(message.len() as int) =~= message);
        if let Some(data) = data {
            assert(data.take(data.len() as int) =~= data);
        }
    }
    if let ReplyModel::Transport(message) = reply {
        assert(message.take(message.len() as int) =~= message);
    }
}

/// Each answer adds one attempt behind those before it and changes none of them. The same bytes are
/// sent again if and only if the answer left the delivery open, the service runs and fewer than
/// `retries` repetitions were made; from then on the delivery counts as uncertain. A definite answer
/// does not make a certain delivery uncertain, and nothing makes an uncertain one certain.
pub proof fn law_an_answer_adds_one_attempt(
    submission: SubmissionModel,
    reply: ReplyModel,
    started_at_ms: u64,
    completed_at_ms: u64,
    stopped: bool,
)
    ensures
        ({
            let after = submission.answered(reply, started_at_ms, completed_at_ms, stopped);
            let left_open = reply is Transport || (reply is Hash && reply->Hash_0 != submission.hash);
            let n = submission.attempts.len() as int;
            &&& after.attempts.len() == n + 1
            &&& forall|i: int| 0 <= i < n ==> #[trigger] after.attempts[i] == submission.attempts[i]
            &&& after.attempts[n].disposition == Disposition::Ambiguous <==> left_open
            &&& after.attempts[n].started_at_ms == started_at_ms
            &&& after.attempts[n].completed_at_ms == completed_at_ms
            &&& after.attempts[n].queued_at_ms == submission.queued_at_ms
            &&& after.attempts[n].target_observed == submission.target_observed
            &&& submission.repeats(reply, stopped) <==> left_open && !stopped && submission.retry < submission.retries
            &&& after.retry == submission.retry + (if submission.repeats(reply, stopped) { 1int } else { 0int })
            &&& after.uncertain <==> submission.uncertain || (left_open && !stopped)
            &&& after.id == submission.id
            &&& after.hash == submission.hash
            &&& after.retries == submission.retries
            &&& after.queued_at_ms == submission.queued_at_ms
            &&& after.target_observed == submission.target_observed
        }),
{
}

/// A submission after transport failed `n` times in a row.
pub open spec fn unanswered(dispatch: model::DispatchModel, retries: u32, message: Seq<char>, n: nat) -> SubmissionModel
    decreases n,
{
    if n == 0 {
        SubmissionModel::begun(dispatch, retries)
    } else {
        unanswered(dispatch, retries, message, (n - 1) as nat).answered(ReplyModel::Transport(message), 0, 0, false)
    }
}

/// A target that never answers is asked once and `retries` times again: after that many failures
/// another request is due, and after one more there is not. All of them are on record.
pub proof fn law_a_silent_target_is_asked_retries_times_again(
    dispatch: model::DispatchModel,
    retries: u32,
    message: Seq<char>,
    n: nat,
)
    requires
        n <= retries,
    ensures
        ({
            let submission = unanswered(dispatch, retries, message, n);
            &&& submission.due()
            &&& submission.attempts.len() == n
            &&& submission.retries == retries
            &&& submission.repeats(ReplyModel::Transport(message), false) <==> n < retries
            &&& n > 0 ==> submission.uncertain
        }),
    decreases n,
{
    if n > 0 {
        let before = unanswered(dispatch, retries, message, (n - 1) as nat);
        law_a_silent_target_is_asked_retries_times_again(dispatch, retries, message, (n - 1) as nat);
        law_only_ambiguous_attempts_are_repeated(before, ReplyModel::Transport(message), 0, 0, false);
    }
}

// Lanes.

/// The lane of a dispatch: its sender and nonce key and, for an expiring nonce, the occurrence
/// itself. Keys in this form are ordered as sender, nonce key and occurrence are.
pub open spec fn lane_key(dispatch: model::DispatchModel) -> Seq<u8> {
    let sequence = dispatch.transaction.sender.bytes() + dispatch.transaction.nonce_key.bytes();
    if dispatch.transaction.expiring {
        sequence + dispatch.id.key_bytes()
    } else {
        sequence
    }
}

/// The lanes of some dispatches, by key.
pub open spec fn lane_keys(queued: Seq<model::DispatchModel>) -> Map<Seq<u8>, ()> {
    Map::new(
        |key: Seq<u8>| exists|i: int| 0 <= i < queued.len() && lane_key(#[trigger] queued[i]) == key,
        |key: Seq<u8>| (),
    )
}

/// The dispatches of one lane, in their order.
pub open spec fn lane(queued: Seq<model::DispatchModel>, key: Seq<u8>) -> Seq<model::DispatchModel> {
    queued.filter(|dispatch: model::DispatchModel| lane_key(dispatch) == key)
}

/// The dispatches lane by lane, in the order of the lanes' keys.
pub open spec fn laned(queued: Seq<model::DispatchModel>) -> Seq<Seq<model::DispatchModel>> {
    table::listed(lane_keys(queued)).map_values(|key: Seq<u8>| lane(queued, key))
}

/// What a list of lanes says.
pub open spec fn lanes_view(lanes: Seq<Vec<Dispatch>>) -> Seq<Seq<model::DispatchModel>> {
    lanes.map_values(|lane: Vec<Dispatch>| evidence::dispatches_view(lane@))
}

fn lane_key_vec(dispatch: &Dispatch) -> (r: Vec<u8>)
    ensures
        r@ == lane_key(dispatch@),
{
    let mut key = dispatch.transaction.sender.to_vec();
    let mut nonce_key = dispatch.transaction.nonce_key.to_vec();
    key.append(&mut nonce_key);
    if dispatch.transaction.expiring {
        let mut id = dispatch.id.key_vec();
        key.append(&mut id);
    }
    assert(key@ =~= lane_key(dispatch@));
    key
}

/// Sorts dispatches into lanes. One request at a time is outstanding per lane; expiring nonces are
/// independent occurrences, each a lane of its own.
pub fn lanes(queued: &Vec<Dispatch>) -> (r: Vec<Vec<Dispatch>>)
    ensures
        lanes_view(r@) == laned(evidence::dispatches_view(queued@)),
{
    let ghost said = evidence::dispatches_view(queued@);
    let mut keys: Table<()> = Table::new();
    let mut i: usize = 0;
    while i < queued.len()
        invariant
            i <= queued@.len(),
            said == evidence::dispatches_view(queued@),
            keys.wf(),
            forall|key: Seq<u8>| #[trigger] keys@.contains_key(key) <==> exists|j: int|
                0 <= j < i && lane_key(#[trigger] said[j]) == key,
        decreases queued@.len() - i,
    {
        let ghost before = keys@;
        let key = lane_key_vec(&queued[i]);
        assert(said[i as int] == queued@[i as int]@);
        keys.put(key, ());
        proof {
            assert forall|k: Seq<u8>| #[trigger] keys@.contains_key(k) <==> exists|j: int|
                0 <= j < i + 1 && lane_key(#[trigger] said[j]) == k by {
                if before.contains_key(k) {
                    let j = choose|j: int| 0 <= j < i && lane_key(#[trigger] said[j]) == k;
                    assert(lane_key(said[j]) == k);
                }
                if k == key@ {
                    assert(lane_key(said[i as int]) == k);
                }
            }
        }
        i += 1;
    }
    assert(keys@ =~= lane_keys(said));
    let names = keys.all_keys();
    let ghost listed = table::listed(lane_keys(said));
    let mut out: Vec<Vec<Dispatch>> = Vec::new();
    let mut k: usize = 0;
    while k < names.len()
        invariant
            k <= names@.len(),
            said == evidence::dispatches_view(queued@),
            table::key_views(names@) == listed,
            out@.len() == k,
            forall|j: int| 0 <= j < k ==> evidence::dispatches_view((#[trigger] out@[j])@) == lane(said, listed[j]),
        decreases names@.len() - k,
    {
        assert(names@[k as int]@ == listed[k as int]);
        out.push(lane_of(queued, &names[k]));
        k += 1;
    }
    assert(listed.len() == names@.len());
    assert(lanes_view(out@) =~= laned(said));
    out
}

/// The dispatches of one lane, in their order.
fn lane_of(queued: &Vec<Dispatch>, key: &Vec<u8>) -> (r: Vec<Dispatch>)
    ensures
        evidence::dispatches_view(r@) == lane(evidence::dispatches_view(queued@), key@),
{
    let ghost said = evidence::dispatches_view(queued@);
    let ghost pred = |dispatch: model::DispatchModel| lane_key(dispatch) == key@;
    let mut out: Vec<Dispatch> = Vec::new();
    proof {
        reveal(Seq::filter);
        assert(evidence::dispatches_view(out@) =~= said.take(0).filter(pred));
    }
    let mut i: usize = 0;
    while i < queued.len()
        invariant
            i <= queued@.len(),
            said == evidence::dispatches_view(queued@),
            pred == (|dispatch: model::DispatchModel| lane_key(dispatch) == key@),
            evidence::dispatches_view(out@) == said.take(i as int).filter(pred),
        decreases queued@.len() - i,
    {
        assert(said[i as int] == queued@[i as int]@);
        let ghost before = evidence::dispatches_view(out@);
        let own = lane_key_vec(&queued[i]);
        proof {
            reveal(Seq::filter);
            assert(said.take(i + 1).drop_last() =~= said.take(i as int));
            assert(said.take(i + 1).last() == said[i as int]);
        }
        if own == *key {
            assert(own@ =~= key@);
            let dispatch = queued[i].clone();
            out.push(dispatch);
            assert(evidence::dispatches_view(out@) =~= before.push(said[i as int]));
        } else {
            assert(own@ != key@);
        }
        i += 1;
    }
    assert(said.take(i as int) =~= said);
    out
}

/// The keys of lanes can be listed.
proof fn lemma_lane_keys(queued: Seq<model::DispatchModel>)
    ensures
        table::lists(table::listed(lane_keys(queued)), lane_keys(queued)),
{
    let list = queued.map_values(|dispatch: model::DispatchModel| lane_key(dispatch));
    vstd::seq_lib::seq_to_set_is_finite(list);
    assert forall|key: Seq<u8>| lane_keys(queued).dom().contains(key) implies list.to_set().contains(key) by {
        let i = choose|i: int| 0 <= i < queued.len() && lane_key(#[trigger] queued[i]) == key;
        assert(list[i] == key);
    }
    vstd::set_lib::lemma_set_subset_finite(list.to_set(), lane_keys(queued).dom());
    table::lemma_finite_lists(lane_keys(queued));
}

/// Lanes part the dispatches: each dispatch is in the lane of its key, a lane holds no others, and
/// no two lanes share a key.
pub proof fn law_lanes_part_the_dispatches(queued: Seq<model::DispatchModel>)
    ensures
        forall|i: int| 0 <= i < queued.len() ==> table::listed(lane_keys(queued)).contains(
            lane_key(#[trigger] queued[i]),
        ) && lane(queued, lane_key(queued[i])).contains(queued[i]),
        forall|a: int, i: int| 0 <= a < laned(queued).len() && 0 <= i < laned(queued)[a].len() ==> {
            &&& queued.contains(#[trigger] laned(queued)[a][i])
            &&& lane_key(laned(queued)[a][i]) == table::listed(lane_keys(queued))[a]
        },
        table::ascending(table::listed(lane_keys(queued))),
{
    lemma_lane_keys(queued);
    let keys = table::listed(lane_keys(queued));
    assert forall|i: int| 0 <= i < queued.len() implies keys.contains(lane_key(#[trigger] queued[i])) && lane(
        queued,
        lane_key(queued[i]),
    ).contains(queued[i]) by {
        let key = lane_key(queued[i]);
        assert(lane_keys(queued).contains_key(key));
        queued.filter_lemma(|dispatch: model::DispatchModel| lane_key(dispatch) == key);
    }
    assert forall|a: int, i: int| 0 <= a < laned(queued).len() && 0 <= i < laned(queued)[a].len() implies {
        &&& queued.contains(#[trigger] laned(queued)[a][i])
        &&& lane_key(laned(queued)[a][i]) == keys[a]
    } by {
        let pred = |dispatch: model::DispatchModel| lane_key(dispatch) == keys[a];
        queued.filter_lemma(pred);
        let found = queued.filter(pred);
        assert(laned(queued)[a] == found);
        assert(pred(found[i]));
        fold::lemma_filter_from(queued, pred, i);
    }
}

/// Within a lane the order of the queue is kept: of two dispatches of one lane, the one that was
/// queued first comes first.
pub proof fn law_lanes_keep_the_order(queued: Seq<model::DispatchModel>, key: Seq<u8>, n: int)
    requires
        0 <= n <= queued.len(),
    ensures
        lane(queued, key) == lane(queued.take(n), key) + lane(queued.skip(n), key),
{
    assert(queued =~= queued.take(n) + queued.skip(n));
    Seq::filter_distributes_over_add(
        queued.take(n),
        queued.skip(n),
        |dispatch: model::DispatchModel| lane_key(dispatch) == key,
    );
}

/// Two dispatches share a lane exactly if they have the same sender and nonce key and neither is
/// expiring, or they are the same expiring occurrence of it.
pub proof fn law_lanes_are_nonce_sequences(a: model::DispatchModel, b: model::DispatchModel)
    ensures
        lane_key(a) == lane_key(b) <==> {
            &&& a.transaction.sender == b.transaction.sender
            &&& a.transaction.nonce_key == b.transaction.nonce_key
            &&& a.transaction.expiring == b.transaction.expiring
            &&& a.transaction.expiring ==> a.id == b.id
        },
{
    let (x, y) = (lane_key(a), lane_key(b));
    words::lemma_address_len(a.transaction.sender);
    words::lemma_address_len(b.transaction.sender);
    words::lemma_hash_len(B256 { hi: a.transaction.nonce_key.hi, lo: a.transaction.nonce_key.lo });
    words::lemma_hash_len(B256 { hi: b.transaction.nonce_key.hi, lo: b.transaction.nonce_key.lo });
    state::lemma_key_len(a.id);
    state::lemma_key_len(b.id);
    state::law_keys_are_exact(a.id, b.id);
    assert(x.take(20) =~= a.transaction.sender.bytes());
    assert(y.take(20) =~= b.transaction.sender.bytes());
    assert(x.subrange(20, 52) =~= a.transaction.nonce_key.bytes());
    assert(y.subrange(20, 52) =~= b.transaction.nonce_key.bytes());
    if a.transaction.expiring {
        assert(x.skip(52) =~= a.id.key_bytes());
    }
    if b.transaction.expiring {
        assert(y.skip(52) =~= b.id.key_bytes());
    }
    if x == y {
        words::lemma_address_injective(a.transaction.sender, b.transaction.sender);
        words::lemma_u256_injective(a.transaction.nonce_key, b.transaction.nonce_key);
    }
}

/// A lane is what the queue holds of one sender and nonce key, all of it and in the queue's order; an
/// expiring transaction is a lane of its own. No lane is empty, and no two are of one sender and nonce
/// key.
pub proof fn law_a_lane_is_a_nonce_sequence_in_queue_order(queued: Seq<model::DispatchModel>)
    ensures
        forall|a: int| 0 <= a < laned(queued).len() ==> (#[trigger] laned(queued)[a]).len() > 0 && laned(queued)[a]
            == queued.filter(
            |dispatch: model::DispatchModel|
                {
                    let first = laned(queued)[a][0];
                    &&& dispatch.transaction.sender == first.transaction.sender
                    &&& dispatch.transaction.nonce_key == first.transaction.nonce_key
                    &&& dispatch.transaction.expiring == first.transaction.expiring
                    &&& dispatch.transaction.expiring ==> dispatch.id == first.id
                },
        ),
        forall|a: int, b: int| 0 <= a < b < laned(queued).len() ==> {
            let (x, y) = ((#[trigger] laned(queued)[a])[0], (#[trigger] laned(queued)[b])[0]);
            ||| x.transaction.sender != y.transaction.sender
            ||| x.transaction.nonce_key != y.transaction.nonce_key
            ||| x.transaction.expiring != y.transaction.expiring
            ||| x.transaction.expiring && x.id != y.id
        },
{
    lemma_lane_keys(queued);
    law_lanes_part_the_dispatches(queued);
    let keys = table::listed(lane_keys(queued));
    assert forall|a: int| 0 <= a < laned(queued).len() implies (#[trigger] laned(queued)[a]).len() > 0 && lane_key(
        laned(queued)[a][0],
    ) == keys[a] by {
        assert(keys.contains(keys[a]));
        let i = choose|i: int| 0 <= i < queued.len() && lane_key(#[trigger] queued[i]) == keys[a];
        assert(lane(queued, lane_key(queued[i])).contains(queued[i]));
        assert(laned(queued)[a].contains(queued[i]));
        assert(lane_key(laned(queued)[a][0]) == keys[a]);
    }
    assert forall|a: int| 0 <= a < laned(queued).len() implies (#[trigger] laned(queued)[a]) == queued.filter(
        |dispatch: model::DispatchModel|
            {
                let first = laned(queued)[a][0];
                &&& dispatch.transaction.sender == first.transaction.sender
                &&& dispatch.transaction.nonce_key == first.transaction.nonce_key
                &&& dispatch.transaction.expiring == first.transaction.expiring
                &&& dispatch.transaction.expiring ==> dispatch.id == first.id
            },
    ) by {
        let first = laned(queued)[a][0];
        let own = |dispatch: model::DispatchModel| lane_key(dispatch) == keys[a];
        let alike = |dispatch: model::DispatchModel|
            {
                let first = laned(queued)[a][0];
                &&& dispatch.transaction.sender == first.transaction.sender
                &&& dispatch.transaction.nonce_key == first.transaction.nonce_key
                &&& dispatch.transaction.expiring == first.transaction.expiring
                &&& dispatch.transaction.expiring ==> dispatch.id == first.id
            };
        assert forall|dispatch: model::DispatchModel| #[trigger] own(dispatch) == alike(dispatch) by {
            law_lanes_are_nonce_sequences(dispatch, first);
        }
        assert(own =~= alike);
    }
    assert forall|a: int, b: int| 0 <= a < b < laned(queued).len() implies {
        let (x, y) = ((#[trigger] laned(queued)[a])[0], (#[trigger] laned(queued)[b])[0]);
        ||| x.transaction.sender != y.transaction.sender
        ||| x.transaction.nonce_key != y.transaction.nonce_key
        ||| x.transaction.expiring != y.transaction.expiring
        ||| x.transaction.expiring && x.id != y.id
    } by {
        law_lanes_are_nonce_sequences(laned(queued)[a][0], laned(queued)[b][0]);
        if keys[a] == keys[b] {
            table::lemma_ascending_distinct(keys, a, b);
        }
    }
}

/// Every dispatch is in a lane.
pub proof fn law_every_dispatch_is_in_a_lane(queued: Seq<model::DispatchModel>, i: int) -> (a: int)
    requires
        0 <= i < queued.len(),
    ensures
        0 <= a < laned(queued).len(),
        laned(queued)[a].contains(queued[i]),
{
    law_lanes_part_the_dispatches(queued);
    let keys = table::listed(lane_keys(queued));
    assert(keys.contains(lane_key(queued[i])));
    let a = choose|a: int| 0 <= a < keys.len() && keys[a] == lane_key(queued[i]);
    assert(laned(queued)[a] == lane(queued, keys[a]));
    a
}

/// The dispatches of one lane on their way to the target, one request at a time.
#[derive(Debug)]
pub struct Lane {
    pub queue: Vec<Dispatch>,
    /// The outcomes so far, in the order of the queue.
    pub completed: Vec<Completed>,
}

/// What a `Lane` says.
#[verifier::ext_equal]
pub struct LaneModel {
    pub queue: Seq<model::DispatchModel>,
    pub completed: Seq<model::CompletedModel>,
}

impl View for Lane {
    type V = LaneModel;

    open spec fn view(&self) -> LaneModel {
        LaneModel {
            queue: evidence::dispatches_view(self.queue@),
            completed: evidence::completions_view(self.completed@),
        }
    }
}

/// Contracts speak of lanes as they are: of their dispatches and outcomes in their order.
pub proof fn law_a_lane_says_what_it_holds(lane: Lane, lanes: Seq<Vec<Dispatch>>, a: int)
    requires
        0 <= a < lanes.len(),
    ensures
        lane@.queue.len() == lane.queue@.len(),
        forall|i: int| 0 <= i < lane.queue@.len() ==> #[trigger] lane@.queue[i] == lane.queue@[i]@,
        lane@.completed.len() == lane.completed@.len(),
        forall|i: int| 0 <= i < lane.completed@.len() ==> #[trigger] lane@.completed[i] == lane.completed@[i]@,
        lanes_view(lanes).len() == lanes.len(),
        lanes_view(lanes)[a].len() == lanes[a]@.len(),
        forall|i: int| 0 <= i < lanes[a]@.len() ==> #[trigger] lanes_view(lanes)[a][i] == lanes[a]@[i]@,
{
}

impl LaneModel {
    /// The outcomes are those of the first dispatches of the lane, one for each, in their order.
    pub open spec fn in_order(self) -> bool {
        &&& self.completed.len() <= self.queue.len()
        &&& forall|i: int| 0 <= i < self.completed.len() ==> (#[trigger] self.completed[i]).id == self.queue[i].id
    }

    /// The dispatch that is submitted next. After a stop none is.
    pub open spec fn next(self, stopped: bool) -> Option<model::DispatchModel> {
        if stopped || self.completed.len() >= self.queue.len() {
            None
        } else {
            Some(self.queue[self.completed.len() as int])
        }
    }

    /// The lane after the outcome of a dispatch.
    pub open spec fn after(self, outcome: model::CompletedModel) -> LaneModel {
        LaneModel { completed: self.completed.push(outcome), ..self }
    }
}

impl Lane {
    /// A lane of which nothing was submitted yet.
    pub fn of(queue: Vec<Dispatch>) -> (r: Lane)
        ensures
            r@ == (LaneModel { queue: evidence::dispatches_view(queue@), completed: Seq::empty() }),
            r@.in_order(),
    {
        let r = Lane { queue, completed: Vec::new() };
        assert(r@.completed =~= Seq::empty());
        r
    }

    /// The dispatch to submit next, once the one before it has its outcome. After a stop there is
    /// none: what was never submitted is left out.
    pub fn next(&self, stopped: bool) -> (r: Option<&Dispatch>)
        ensures
            r is Some <==> self@.next(stopped) is Some,
            r matches Some(dispatch) ==> self@.next(stopped) == Some(dispatch@),
    {
        if stopped || self.completed.len() >= self.queue.len() {
            None
        } else {
            Some(&self.queue[self.completed.len()])
        }
    }

    /// Takes the outcome of the dispatch that was submitted.
    pub fn record(&mut self, outcome: Completed)
        requires
            old(self)@.in_order(),
            old(self)@.next(false) matches Some(dispatch) && dispatch.id == outcome.id,
        ensures
            final(self)@ == old(self)@.after(outcome@),
            final(self)@.in_order(),
    {
        let ghost before = self@;
        let ghost said = outcome@;
        self.completed.push(outcome);
        assert(self@ =~= before.after(said));
        assert forall|i: int| 0 <= i < self@.completed.len() implies (#[trigger] self@.completed[i]).id == self@.queue[i].id by {
            if i < before.completed.len() {
                assert(self@.completed[i] == before.completed[i]);
            }
        }
    }

    /// The outcomes, in the order of the lane.
    pub fn finish(self) -> (r: Vec<Completed>)
        ensures
            evidence::completions_view(r@) == self@.completed,
    {
        self.completed
    }
}

/// A stopped lane starts no request but keeps the outcome of the one that was issued: what it
/// leaves are the outcomes of its first dispatches, the last of them that of the issued one.
pub proof fn law_a_stop_keeps_issued_requests_and_starts_none(lane: LaneModel, outcome: model::CompletedModel)
    requires
        lane.in_order(),
        lane.next(false) matches Some(dispatch) && dispatch.id == outcome.id,
    ensures
        lane.next(true) is None,
        lane.after(outcome).next(true) is None,
        lane.after(outcome).in_order(),
        lane.after(outcome).completed.last() == outcome,
{
    let after = lane.after(outcome);
    assert forall|i: int| 0 <= i < after.completed.len() implies (#[trigger] after.completed[i]).id == after.queue[i].id by {
        if i < lane.completed.len() {
            assert(after.completed[i] == lane.completed[i]);
        }
    }
}

/// A lane works off its queue from the front, one dispatch for each outcome: what comes next is the
/// first without one, and there is nothing next only after a stop or at the end. An outcome is kept
/// behind those before it.
pub proof fn law_a_lane_works_off_its_queue_in_order(lane: LaneModel, outcome: model::CompletedModel, stopped: bool)
    ensures
        lane.next(stopped) is None <==> stopped || lane.completed.len() >= lane.queue.len(),
        lane.next(stopped) matches Some(dispatch) ==> dispatch == lane.queue[lane.completed.len() as int],
        lane.after(outcome).queue == lane.queue,
        lane.after(outcome).completed.len() == lane.completed.len() + 1,
        lane.after(outcome).completed[lane.completed.len() as int] == outcome,
        forall|i: int| 0 <= i < lane.completed.len() ==> #[trigger] lane.after(outcome).completed[i] == lane.completed[i],
{
}

/// How many dispatches some lanes hold.
pub open spec fn held(lanes: Seq<Seq<model::DispatchModel>>) -> nat
    decreases lanes.len(),
{
    if lanes.len() == 0 {
        0
    } else {
        held(lanes.drop_last()) + lanes.last().len()
    }
}

/// How many outcomes some lanes have.
pub open spec fn outcomes(lanes: Seq<LaneModel>) -> nat
    decreases lanes.len(),
{
    if lanes.len() == 0 {
        0
    } else {
        outcomes(lanes.drop_last()) + lanes.last().completed.len()
    }
}

/// The lanes of some keys.
spec fn lanes_of(queued: Seq<model::DispatchModel>, keys: Seq<Seq<u8>>) -> Seq<Seq<model::DispatchModel>> {
    keys.map_values(|key: Seq<u8>| lane(queued, key))
}

/// One more dispatch lengthens the lane of its key, and only this one.
proof fn lemma_one_more(queued: Seq<model::DispatchModel>, keys: Seq<Seq<u8>>)
    requires
        queued.len() > 0,
        table::ascending(keys),
    ensures
        held(lanes_of(queued, keys)) == held(lanes_of(queued.drop_last(), keys)) + (if keys.contains(
            lane_key(queued.last()),
        ) {
            1nat
        } else {
            0
        }),
    decreases keys.len(),
{
    let own = lane_key(queued.last());
    let (now, before) = (lanes_of(queued, keys), lanes_of(queued.drop_last(), keys));
    if keys.len() > 0 {
        let rest = keys.drop_last();
        assert forall|i: int, j: int| 0 <= i < j < rest.len() implies bytes::before(#[trigger] rest[i], #[trigger] rest[j]) by {
            assert(rest[i] == keys[i] && rest[j] == keys[j]);
        }
        lemma_one_more(queued, rest);
        assert(now.drop_last() =~= lanes_of(queued, rest));
        assert(before.drop_last() =~= lanes_of(queued.drop_last(), rest));
        reveal(Seq::filter);
        assert(now.last() == lane(queued, keys.last()));
        assert(before.last() == lane(queued.drop_last(), keys.last()));
        if rest.contains(own) {
            let i = choose|i: int| 0 <= i < rest.len() && rest[i] == own;
            assert(keys[i] == own);
            if keys[keys.len() - 1] == own {
                table::lemma_ascending_distinct(keys, i, keys.len() - 1);
            }
        } else if keys.contains(own) {
            let i = choose|i: int| 0 <= i < keys.len() && keys[i] == own;
            if i < rest.len() {
                assert(rest[i] == own);
            }
        }
        assert(keys[keys.len() - 1] == keys.last());
    }
}

/// Lanes over all keys hold every dispatch once.
proof fn lemma_all_held(queued: Seq<model::DispatchModel>, keys: Seq<Seq<u8>>)
    requires
        table::ascending(keys),
        forall|i: int| 0 <= i < queued.len() ==> keys.contains(lane_key(#[trigger] queued[i])),
    ensures
        held(lanes_of(queued, keys)) == queued.len(),
    decreases queued.len(), keys.len(),
{
    if queued.len() == 0 {
        if keys.len() > 0 {
            let rest = keys.drop_last();
            assert forall|i: int, j: int| 0 <= i < j < rest.len() implies bytes::before(#[trigger] rest[i], #[trigger] rest[j]) by {
                assert(rest[i] == keys[i] && rest[j] == keys[j]);
            }
            lemma_all_held(queued, rest);
            assert(lanes_of(queued, keys).drop_last() =~= lanes_of(queued, rest));
            reveal(Seq::filter);
        }
    } else {
        let rest = queued.drop_last();
        assert forall|i: int| 0 <= i < rest.len() implies keys.contains(lane_key(#[trigger] rest[i])) by {
            assert(rest[i] == queued[i]);
        }
        lemma_all_held(rest, keys);
        lemma_one_more(queued, keys);
        assert(keys.contains(lane_key(queued[queued.len() - 1])));
    }
}

/// Lanes have as many outcomes as dispatches exactly if each of them is done.
proof fn lemma_outcomes(lanes: Seq<LaneModel>)
    requires
        forall|a: int| 0 <= a < lanes.len() ==> (#[trigger] lanes[a]).in_order(),
    ensures
        outcomes(lanes) <= held(lanes.map_values(|lane: LaneModel| lane.queue)),
        outcomes(lanes) == held(lanes.map_values(|lane: LaneModel| lane.queue)) <==> forall|a: int|
            0 <= a < lanes.len() ==> (#[trigger] lanes[a]).next(false) is None,
    decreases lanes.len(),
{
    if lanes.len() > 0 {
        let rest = lanes.drop_last();
        assert forall|a: int| 0 <= a < rest.len() implies (#[trigger] rest[a]).in_order() by {
            assert(rest[a] == lanes[a]);
        }
        lemma_outcomes(rest);
        let queues = lanes.map_values(|lane: LaneModel| lane.queue);
        assert(queues.drop_last() =~= rest.map_values(|lane: LaneModel| lane.queue));
        let last = lanes[lanes.len() - 1];
        assert(last.in_order());
        if forall|a: int| 0 <= a < lanes.len() ==> (#[trigger] lanes[a]).next(false) is None {
            assert forall|a: int| 0 <= a < rest.len() implies (#[trigger] rest[a]).next(false) is None by {
                assert(rest[a] == lanes[a]);
            }
            assert(last.next(false) is None);
        } else {
            let a = choose|a: int| 0 <= a < lanes.len() && (#[trigger] lanes[a]).next(false) is Some;
            if a < rest.len() {
                assert(rest[a].next(false) is Some);
            }
        }
    }
}

/// The outcomes of a round are as many as its dispatches exactly if every lane is done: the source
/// cursor, which moves on this count, never passes a dispatch that has no outcome.
pub proof fn law_the_count_tells_that_every_lane_is_done(queued: Seq<model::DispatchModel>, lanes: Seq<LaneModel>)
    requires
        lanes.map_values(|lane: LaneModel| lane.queue) == laned(queued),
        forall|a: int| 0 <= a < lanes.len() ==> (#[trigger] lanes[a]).in_order(),
    ensures
        outcomes(lanes) <= queued.len(),
        outcomes(lanes) == queued.len() <==> forall|a: int| 0 <= a < lanes.len() ==> (#[trigger] lanes[a]).next(
            false,
        ) is None,
{
    lemma_lane_keys(queued);
    let keys = table::listed(lane_keys(queued));
    assert forall|i: int| 0 <= i < queued.len() implies keys.contains(lane_key(#[trigger] queued[i])) by {
        assert(lane_keys(queued).contains_key(lane_key(queued[i])));
    }
    lemma_all_held(queued, keys);
    assert(laned(queued) =~= lanes_of(queued, keys));
    lemma_outcomes(lanes);
}

// Progress of the relay.

/// Where the source cursor may go after a block round: to the block, if every queued occurrence
/// has an outcome. On shutdown some have none, and the cursor stays.
pub fn advance(cursor: BlockCursor, expected: usize, completed: usize) -> (r: Option<BlockCursor>)
    ensures
        r == (if completed == expected {
            Some(cursor)
        } else {
            None
        }),
{
    if completed == expected {
        Some(cursor)
    } else {
        None
    }
}

/// Whether the relay has reached its configured end.
pub fn past_end(to_block: Option<u64>, height: u64) -> (r: bool)
    ensures
        r == (to_block matches Some(end) && height >= end),
{
    match to_block {
        Some(end) => height >= end,
        None => false,
    }
}

/// Where the relay worker stands.
#[derive(Clone, Copy, Debug, PartialEq, Eq, Structural)]
pub enum Phase {
    /// Blocks come from the reader and are relayed.
    Relaying,
    /// No block is taken any more; the reader is waited for.
    Closing,
    /// The source is relayed to its end; what may be retried still is.
    Recovering,
    Ended,
}

/// What happened to the relay worker.
#[derive(Clone, Copy, Debug, PartialEq, Eq, Structural)]
pub enum RelayEvent {
    /// The service stops.
    Stopped,
    /// It is time to recover.
    Tick,
    /// The reader delivered the next block.
    Delivered,
    /// The round of a block is committed, with an outcome for every occurrence or not.
    Committed { complete: bool, stopped: bool },
    /// The reader delivers nothing more.
    Exhausted { stopped: bool },
    /// The reader has ended; a failure of it shows an inconsistent history or not.
    ReaderEnded { stopped: bool, failure: Option<bool> },
}

/// What the relay worker does next.
#[derive(Clone, Copy, Debug, PartialEq, Eq, Structural)]
pub enum RelayAction {
    /// Wait for the next event.
    Wait,
    /// Submit the delivered block.
    Submit,
    /// Run a recovery round.
    Recover,
    /// Wait for the reader to end, which it is told to if `abort` is set.
    AwaitReader { abort: bool },
    /// Record the failure of the reader, and end with it.
    Fail { history: bool },
    /// End.
    Finish,
}

impl Phase {
    /// Where an event leads and what is done on it.
    pub open spec fn on(self, event: RelayEvent) -> (Phase, RelayAction) {
        match self {
            Phase::Relaying => match event {
                RelayEvent::Stopped => (Phase::Closing, RelayAction::AwaitReader { abort: true }),
                RelayEvent::Tick => (Phase::Relaying, RelayAction::Recover),
                RelayEvent::Delivered => (Phase::Relaying, RelayAction::Submit),
                RelayEvent::Committed { complete, stopped } => if complete {
                    (Phase::Relaying, RelayAction::Wait)
                } else {
                    (Phase::Closing, RelayAction::AwaitReader { abort: stopped })
                },
                RelayEvent::Exhausted { stopped } => (Phase::Closing, RelayAction::AwaitReader { abort: stopped }),
                RelayEvent::ReaderEnded { .. } => (Phase::Relaying, RelayAction::Wait),
            },
            Phase::Closing => match event {
                RelayEvent::ReaderEnded { stopped, failure } => if stopped {
                    (Phase::Ended, RelayAction::Finish)
                } else {
                    match failure {
                        Some(history) => (Phase::Ended, RelayAction::Fail { history }),
                        None => (Phase::Recovering, RelayAction::Wait),
                    }
                },
                _ => (Phase::Closing, RelayAction::Wait),
            },
            Phase::Recovering => match event {
                RelayEvent::Stopped => (Phase::Ended, RelayAction::Finish),
                RelayEvent::Tick => (Phase::Recovering, RelayAction::Recover),
                _ => (Phase::Recovering, RelayAction::Wait),
            },
            Phase::Ended => (Phase::Ended, RelayAction::Finish),
        }
    }

    /// Where the relay starts: it relays unless the source was relayed to its end already.
    pub fn begin(to_block: Option<u64>, height: u64) -> (r: Phase)
        ensures
            r == (if to_block matches Some(end) && height >= end {
                Phase::Recovering
            } else {
                Phase::Relaying
            }),
    {
        if past_end(to_block, height) {
            Phase::Recovering
        } else {
            Phase::Relaying
        }
    }

    /// What is done before the first event is waited for: where blocks are relayed, what an earlier run
    /// left to be retried is recovered before the first of them is taken.
    pub fn first(self) -> (r: RelayAction)
        ensures
            r == (match self {
                Phase::Relaying => RelayAction::Recover,
                Phase::Closing | Phase::Recovering => RelayAction::Wait,
                Phase::Ended => RelayAction::Finish,
            }),
    {
        match self {
            Phase::Relaying => RelayAction::Recover,
            Phase::Closing | Phase::Recovering => RelayAction::Wait,
            Phase::Ended => RelayAction::Finish,
        }
    }

    /// Takes an event and tells what to do on it.
    pub fn step(&mut self, event: RelayEvent) -> (r: RelayAction)
        ensures
            (*final(self), r) == old(self).on(event),
    {
        let (next, action) = match *self {
            Phase::Relaying => match event {
                RelayEvent::Stopped => (Phase::Closing, RelayAction::AwaitReader { abort: true }),
                RelayEvent::Tick => (Phase::Relaying, RelayAction::Recover),
                RelayEvent::Delivered => (Phase::Relaying, RelayAction::Submit),
                RelayEvent::Committed { complete, stopped } => if complete {
                    (Phase::Relaying, RelayAction::Wait)
                } else {
                    (Phase::Closing, RelayAction::AwaitReader { abort: stopped })
                },
                RelayEvent::Exhausted { stopped } => (
                    Phase::Closing,
                    RelayAction::AwaitReader { abort: stopped },
                ),
                RelayEvent::ReaderEnded { .. } => (Phase::Relaying, RelayAction::Wait),
            },
            Phase::Closing => match event {
                RelayEvent::ReaderEnded { stopped, failure } => if stopped {
                    (Phase::Ended, RelayAction::Finish)
                } else {
                    match failure {
                        Some(history) => (Phase::Ended, RelayAction::Fail { history }),
                        None => (Phase::Recovering, RelayAction::Wait),
                    }
                },
                _ => (Phase::Closing, RelayAction::Wait),
            },
            Phase::Recovering => match event {
                RelayEvent::Stopped => (Phase::Ended, RelayAction::Finish),
                RelayEvent::Tick => (Phase::Recovering, RelayAction::Recover),
                _ => (Phase::Recovering, RelayAction::Wait),
            },
            Phase::Ended => (Phase::Ended, RelayAction::Finish),
        };
        *self = next;
        action
    }
}

/// Only a block that was relayed in full lets the next one be taken: after a round with an
/// occurrence that has no outcome no block is submitted any more, whatever happens.
pub proof fn law_an_unfinished_block_is_the_last(phase: Phase, stopped: bool, event: RelayEvent)
    requires
        phase != Phase::Relaying || event == (RelayEvent::Committed { complete: false, stopped }),
    ensures
        phase.on(event).0 != Phase::Relaying,
        phase.on(event).1 != RelayAction::Submit,
{
}

/// A stop ends the relay: at once where it only recovers, and where it relays as soon as the reader,
/// which is told to end, has ended. Nothing is submitted or recovered after it.
pub proof fn law_a_stop_ends_the_relay(phase: Phase, failure: Option<bool>)
    requires
        phase == Phase::Relaying || phase == Phase::Recovering,
    ensures
        ({
            let (next, action) = phase.on(RelayEvent::Stopped);
            let (last, end) = next.on(RelayEvent::ReaderEnded { stopped: true, failure });
            &&& phase == Phase::Relaying ==> action == (RelayAction::AwaitReader { abort: true })
            &&& phase == Phase::Recovering ==> action == RelayAction::Finish
            &&& last == Phase::Ended && end == RelayAction::Finish
        }),
{
}

/// When the source is relayed to its end the relay goes on recovering; when the reader failed it
/// ends, and the failure is recorded.
pub proof fn law_recovery_outlives_the_reader(failure: Option<bool>)
    ensures
        ({
            let (closing, action) = Phase::Relaying.on(RelayEvent::Exhausted { stopped: false });
            let (next, end) = closing.on(RelayEvent::ReaderEnded { stopped: false, failure });
            &&& action == (RelayAction::AwaitReader { abort: false })
            &&& failure is None ==> next.on(RelayEvent::Tick) == (next, RelayAction::Recover)
            &&& failure matches Some(history) ==> next == Phase::Ended && end == (RelayAction::Fail { history })
        }),
{
}

/// While blocks are relayed each one that is delivered is submitted, each tick recovers, and the next
/// block is taken once one is committed in full. After one that is not, or the last, the reader is
/// waited for, and aborted if and only if the service stops. While only recovering, nothing but a tick
/// or a stop does anything, and after the end nothing does.
pub proof fn law_each_event_of_the_relay_has_its_action(phase: Phase, event: RelayEvent, stopped: bool)
    ensures
        Phase::Relaying.on(RelayEvent::Delivered) == (Phase::Relaying, RelayAction::Submit),
        Phase::Relaying.on(RelayEvent::Tick) == (Phase::Relaying, RelayAction::Recover),
        Phase::Relaying.on(RelayEvent::Committed { complete: true, stopped }) == (Phase::Relaying, RelayAction::Wait),
        Phase::Relaying.on(RelayEvent::Committed { complete: false, stopped }) == (
            Phase::Closing,
            RelayAction::AwaitReader { abort: stopped },
        ),
        Phase::Relaying.on(RelayEvent::Exhausted { stopped }) == (
            Phase::Closing,
            RelayAction::AwaitReader { abort: stopped },
        ),
        Phase::Relaying.on(RelayEvent::Stopped) == (Phase::Closing, RelayAction::AwaitReader { abort: true }),
        event !is ReaderEnded ==> Phase::Closing.on(event) == (Phase::Closing, RelayAction::Wait),
        Phase::Recovering.on(RelayEvent::Tick) == (Phase::Recovering, RelayAction::Recover),
        Phase::Recovering.on(RelayEvent::Stopped) == (Phase::Ended, RelayAction::Finish),
        event !is Tick && event !is Stopped ==> Phase::Recovering.on(event) == (Phase::Recovering, RelayAction::Wait),
        Phase::Ended.on(event) == (Phase::Ended, RelayAction::Finish),
        phase.on(event).1 == RelayAction::Submit ==> phase == Phase::Relaying && event == RelayEvent::Delivered,
        phase.on(event).1 == RelayAction::Recover ==> event == RelayEvent::Tick,
{
}

/// The end of the reader decides how the relay goes on: a stop ends it, a failure ends it with that
/// failure, and a source that was read to its end leaves recovery.
pub proof fn law_the_end_of_the_reader_decides(stopped: bool, failure: Option<bool>)
    ensures
        ({
            let (next, action) = Phase::Closing.on(RelayEvent::ReaderEnded { stopped, failure });
            &&& stopped ==> next == Phase::Ended && action == RelayAction::Finish
            &&& !stopped && failure is Some ==> next == Phase::Ended && action == (RelayAction::Fail { history: failure->0 })
            &&& !stopped && failure is None ==> next == Phase::Recovering && action == RelayAction::Wait
        }),
{
}

/// What to do with an authenticated header.
#[derive(Clone, Copy, Debug, PartialEq, Eq, Structural)]
pub enum HeaderStep {
    /// It lies beyond the configured end: reading is done.
    Done,
    /// It does not follow the block that was delivered last.
    NotContiguous,
    /// Its block is to be fetched and delivered.
    Fetch,
}

/// What to do about a failure of the stream.
#[derive(Clone, Copy, Debug, PartialEq, Eq, Structural)]
pub enum FailureStep {
    /// The history is inconsistent: reading ends with the error.
    Fatal,
    /// The first failure of an episode: record it, then retry from the last delivered block.
    ReportAndRetry,
    /// A failure that was recorded already: retry.
    Retry,
}

/// Reads authenticated source blocks in order. RPC outages are recorded once per episode and the
/// stream is re-initialized from the last delivered block; history inconsistencies are fatal.
#[derive(Clone, Copy, Debug, PartialEq, Eq, Structural)]
pub struct Reader {
    /// The block that was delivered last.
    pub previous: BlockCursor,
    /// A failure was recorded and nothing was delivered since.
    pub failed: bool,
    pub to_block: Option<u64>,
}

impl Reader {
    /// What a failure calls for.
    pub open spec fn on_failure(self, history: bool) -> FailureStep {
        if history {
            FailureStep::Fatal
        } else if self.failed {
            FailureStep::Retry
        } else {
            FailureStep::ReportAndRetry
        }
    }

    /// The reader after a failure.
    pub open spec fn after_failure(self, history: bool) -> Reader {
        Reader { failed: self.failed || !history, ..self }
    }

    /// The reader after a block was delivered.
    pub open spec fn after_delivery(self, cursor: BlockCursor) -> Reader {
        Reader { previous: cursor, failed: false, ..self }
    }

    /// A reader that starts after a block.
    pub fn after(cursor: BlockCursor, to_block: Option<u64>) -> (r: Reader)
        ensures
            r == (Reader { previous: cursor, failed: false, to_block }),
    {
        Reader { previous: cursor, failed: false, to_block }
    }

    /// Whether the last block that is wanted was delivered.
    pub fn finished(&self) -> (r: bool)
        ensures
            r == (self.to_block == Some(self.previous.height)),
    {
        match self.to_block {
            Some(end) => end == self.previous.height,
            None => false,
        }
    }

    /// What to do with the next authenticated header.
    pub fn header(&self, number: u64, parent_hash: B256) -> (r: HeaderStep)
        requires
            self.previous.height < u64::MAX,
        ensures
            r == (if self.to_block matches Some(end) && number > end {
                HeaderStep::Done
            } else if number == self.previous.height + 1 && parent_hash == self.previous.hash {
                HeaderStep::Fetch
            } else {
                HeaderStep::NotContiguous
            }),
    {
        if let Some(end) = self.to_block {
            if number > end {
                return HeaderStep::Done;
            }
        }
        if number == self.previous.height + 1 && parent_hash == self.previous.hash {
            HeaderStep::Fetch
        } else {
            HeaderStep::NotContiguous
        }
    }

    /// A block was delivered; tells whether it was the last one that is wanted.
    pub fn delivered(&mut self, cursor: BlockCursor) -> (r: bool)
        ensures
            *final(self) == old(self).after_delivery(cursor),
            r == (old(self).to_block == Some(cursor.height)),
    {
        self.previous = cursor;
        self.failed = false;
        self.finished()
    }

    /// The stream failed.
    pub fn failure(&mut self, history: bool) -> (r: FailureStep)
        ensures
            r == old(self).on_failure(history),
            *final(self) == old(self).after_failure(history),
    {
        if history {
            FailureStep::Fatal
        } else if self.failed {
            FailureStep::Retry
        } else {
            self.failed = true;
            FailureStep::ReportAndRetry
        }
    }
}

/// One outage is recorded once: after a failure was recorded, further ones are not until a block is
/// delivered, and the first one after that is. An inconsistent history is fatal at any time.
pub proof fn law_an_outage_is_recorded_once(reader: Reader, cursor: BlockCursor)
    ensures
        reader.after_failure(false).on_failure(false) == FailureStep::Retry,
        reader.after_failure(false).after_delivery(cursor).on_failure(false) == FailureStep::ReportAndRetry,
        reader.on_failure(true) == FailureStep::Fatal,
{
}

/// The reader goes on from the block that it delivered last: a failure moves it nowhere, a delivery
/// moves it to what was delivered, and neither changes where it ends. A failure is recorded if and only
/// if it is no inconsistent history and none was recorded since the last delivery.
pub proof fn law_the_reader_goes_on_from_its_last_delivery(reader: Reader, cursor: BlockCursor, history: bool)
    ensures
        reader.after_failure(history).previous == reader.previous,
        reader.after_failure(history).to_block == reader.to_block,
        reader.after_failure(history).failed <==> reader.failed || !history,
        reader.after_delivery(cursor).previous == cursor,
        reader.after_delivery(cursor).to_block == reader.to_block,
        !reader.after_delivery(cursor).failed,
        reader.on_failure(history) == FailureStep::Fatal <==> history,
        reader.on_failure(history) == FailureStep::ReportAndRetry <==> !history && !reader.failed,
        reader.on_failure(history) == FailureStep::Retry <==> !history && reader.failed,
{
}

} // verus!
