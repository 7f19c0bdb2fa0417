//! Independent receipt observation: what a finalized block's receipts say and what its system
//! transactions must be.

use crate::fold;
use crate::foreign;
use crate::foreign::LogFields;
use crate::source;
use crate::source::{Envelope, FinalizedBlock};
use crate::state;
use crate::state::{BlockCursor, Incident, IncidentModel, ReceiptSummary, TargetObservation, TxLocation};
use crate::text;
use crate::words::{Address, B256};
use vstd::prelude::*;
use vstd::string::StringExecFns;

verus! {

// Receipts.

/// A log with what the RPC says of its place.
#[derive(Clone, Debug, PartialEq, Eq)]
pub struct RpcLog {
    pub address: Address,
    pub topics: Vec<B256>,
    pub data: Vec<u8>,
    pub block_hash: Option<B256>,
    pub block_number: Option<u64>,
    pub block_timestamp: Option<u64>,
    pub transaction_hash: Option<B256>,
    pub transaction_index: Option<u64>,
    pub log_index: Option<u64>,
    pub removed: bool,
}

/// A transaction receipt as the RPC gives it.
#[derive(Clone, Debug, PartialEq, Eq)]
pub struct Receipt {
    pub transaction_hash: B256,
    pub block_hash: Option<B256>,
    pub block_number: Option<u64>,
    pub transaction_index: Option<u64>,
    pub status: bool,
    pub gas_used: u64,
    pub logs: Vec<RpcLog>,
}

/// What consensus knows of a log: its address, topics and data.
pub open spec fn consensus_fields(log: RpcLog) -> (Seq<u8>, Seq<Seq<u8>>, Seq<u8>) {
    (log.address.bytes(), log.topics@.map_values(|topic: B256| topic.bytes()), log.data@)
}

/// The bytes of the hash over the consensus fields of some logs.
pub open spec fn logs_hash(logs: Seq<RpcLog>) -> Seq<u8> {
    foreign::keccak(foreign::rlp_logs(logs.map_values(|log: RpcLog| consensus_fields(log))))
}

/// The consensus fields of a log.
fn log_fields(log: &RpcLog) -> (r: LogFields)
    ensures
        r@ == consensus_fields(*log),
{
    let mut topics: Vec<[u8; 32]> = Vec::new();
    let mut i: usize = 0;
    while i < log.topics.len()
        invariant
            i <= log.topics@.len(),
            topics@.len() == i,
            forall|j: int| 0 <= j < i ==> (#[trigger] topics@[j])@ == log.topics@[j].bytes(),
        decreases log.topics@.len() - i,
    {
        topics.push(log.topics[i].to_array());
        i += 1;
    }
    let r = LogFields { address: log.address.to_array(), topics, data: log.data.clone() };
    assert(r@.1 =~= consensus_fields(*log).1);
    r
}

/// The hash of what consensus knows of some logs.
pub fn consensus_logs_hash(logs: &Vec<RpcLog>) -> (r: B256)
    ensures
        r.bytes() == logs_hash(logs@),
{
    let mut fields: Vec<LogFields> = Vec::new();
    let mut i: usize = 0;
    while i < logs.len()
        invariant
            i <= logs@.len(),
            fields@.len() == i,
            forall|j: int| 0 <= j < i ==> (#[trigger] fields@[j])@ == consensus_fields(logs@[j]),
        decreases logs@.len() - i,
    {
        fields.push(log_fields(&logs[i]));
        i += 1;
    }
    assert(foreign::log_views(fields@) =~= logs@.map_values(|log: RpcLog| consensus_fields(log)));
    let encoded = foreign::encode_logs(&fields);
    B256::from_bytes(&foreign::keccak256(&encoded))
}

/// A summary says what a receipt says.
pub open spec fn summarizes(summary: ReceiptSummary, receipt: Receipt) -> bool {
    &&& summary.status == receipt.status
    &&& summary.gas_used == receipt.gas_used
    &&& summary.logs_hash.bytes() == logs_hash(receipt.logs@)
}

/// The consensus outcome of a receipt.
pub fn receipt_summary(receipt: &Receipt) -> (r: ReceiptSummary)
    ensures
        summarizes(r, *receipt),
{
    ReceiptSummary {
        status: receipt.status,
        gas_used: receipt.gas_used,
        logs_hash: consensus_logs_hash(&receipt.logs),
    }
}

/// The summary ignores where the RPC places a receipt and its logs: receipts with the same outcome
/// and the same consensus fields have the same summary.
pub proof fn law_summaries_ignore_rpc_location(
    a: Receipt,
    b: Receipt,
    x: ReceiptSummary,
    y: ReceiptSummary,
)
    requires
        summarizes(x, a),
        summarizes(y, b),
        a.status == b.status,
        a.gas_used == b.gas_used,
        a.logs@.map_values(|log: RpcLog| consensus_fields(log)) == b.logs@.map_values(
            |log: RpcLog| consensus_fields(log),
        ),
    ensures
        x == y,
{
    crate::words::lemma_hash_injective(x.logs_hash, y.logs_hash);
}

/// The hash of logs covers the address, the topics and the data of every one of them, in their order,
/// and nothing that the RPC adds.
pub proof fn law_the_logs_hash_covers_address_topics_and_data(logs: Seq<RpcLog>)
    ensures
        logs_hash(logs) == foreign::keccak(
            foreign::rlp_logs(
                Seq::new(
                    logs.len(),
                    |i: int|
                        (
                            logs[i].address.bytes(),
                            logs[i].topics@.map_values(|topic: B256| topic.bytes()),
                            logs[i].data@,
                        ),
                ),
            ),
        ),
{
    assert(logs.map_values(|log: RpcLog| consensus_fields(log)) =~= Seq::new(
        logs.len(),
        |i: int|
            (logs[i].address.bytes(), logs[i].topics@.map_values(|topic: B256| topic.bytes()), logs[i].data@),
    ));
}

/// A summary tells the status, the gas and the logs of its receipt: two receipts that differ in status
/// or gas have no summary in common, and where both agree the summaries differ at most in their logs.
pub proof fn law_a_summary_tells_status_gas_and_logs(summary: ReceiptSummary, other: ReceiptSummary, receipt: Receipt)
    requires
        summarizes(summary, receipt),
    ensures
        summary.status == receipt.status,
        summary.gas_used == receipt.gas_used,
        summary.logs_hash.bytes() == logs_hash(receipt.logs@),
        summarizes(other, receipt) ==> other == summary,
        other.status != summary.status || other.gas_used != summary.gas_used || other.logs_hash != summary.logs_hash
            ==> !summarizes(other, receipt),
{
    if other.logs_hash.bytes() == summary.logs_hash.bytes() {
        crate::words::lemma_hash_injective(other.logs_hash, summary.logs_hash);
    }
}

/// Why the receipts of a block were not taken.
#[derive(Clone, Copy, Debug, PartialEq, Eq, Structural)]
pub enum ReceiptError {
    /// There is not one receipt for each transaction.
    CountMismatch,
    /// The receipt at this position is not that of the transaction there.
    IdentityMismatch { height: u64, index: usize },
}

/// A receipt is that of a transaction of a block.
pub open spec fn belongs(receipt: Receipt, cursor: BlockCursor, hash: B256, index: int) -> bool {
    &&& receipt.transaction_hash == hash
    &&& receipt.block_hash == Some(cursor.hash)
    &&& receipt.block_number == Some(cursor.height)
    &&& receipt.transaction_index == Some(index as u64)
}

/// Why the receipts of a block are not taken, if they are not.
pub open spec fn receipts_error(cursor: BlockCursor, hashes: Seq<B256>, receipts: Seq<Receipt>) -> Option<ReceiptError> {
    if receipts.len() != hashes.len() {
        Some(ReceiptError::CountMismatch)
    } else {
        fold::first_error(
            receipts.len(),
            |i: int|
                if belongs(receipts[i], cursor, hashes[i], i) {
                    None
                } else {
                    Some(ReceiptError::IdentityMismatch { height: cursor.height, index: i as usize })
                },
        )
    }
}

/// The receipts of a block are taken if and only if there is one for each transaction and each names, at
/// its position, that transaction, the hash and the height of the block and the position. Else the count
/// is wrong, or the first receipt that does not is told, with the height of the block.
pub proof fn law_receipts_name_their_block_and_position(cursor: BlockCursor, hashes: Seq<B256>, receipts: Seq<Receipt>)
    requires
        receipts.len() <= usize::MAX,
    ensures
        receipts_error(cursor, hashes, receipts) is None <==> receipts.len() == hashes.len() && forall|i: int|
            0 <= i < receipts.len() ==> {
                &&& (#[trigger] receipts[i]).transaction_hash == hashes[i]
                &&& receipts[i].block_hash == Some(cursor.hash)
                &&& receipts[i].block_number == Some(cursor.height)
                &&& receipts[i].transaction_index == Some(i as u64)
            },
        receipts_error(cursor, hashes, receipts) == Some(ReceiptError::CountMismatch) <==> receipts.len() != hashes.len(),
        receipts_error(cursor, hashes, receipts) matches Some(ReceiptError::IdentityMismatch { height, index }) ==> {
            &&& height == cursor.height
            &&& index < receipts.len()
            &&& receipts[index as int].transaction_hash != hashes[index as int] || receipts[index as int].block_hash
                != Some(cursor.hash) || receipts[index as int].block_number != Some(cursor.height)
                || receipts[index as int].transaction_index != Some(index as u64)
        },
{
    let check = |i: int|
        if belongs(receipts[i], cursor, hashes[i], i) {
            None
        } else {
            Some(ReceiptError::IdentityMismatch { height: cursor.height, index: i as usize })
        };
    if receipts.len() == hashes.len() {
        if fold::first_error(receipts.len(), check) is None {
            assert forall|i: int| 0 <= i < receipts.len() implies {
                &&& (#[trigger] receipts[i]).transaction_hash == hashes[i]
                &&& receipts[i].block_hash == Some(cursor.hash)
                &&& receipts[i].block_number == Some(cursor.height)
                &&& receipts[i].transaction_index == Some(i as u64)
            } by {
                fold::lemma_all_pass(receipts.len(), check, i);
            }
        } else {
            let at = crate::evidence::submission_laws::lemma_error_from(receipts.len(), check);
            assert(receipts[at].transaction_hash != hashes[at] || receipts[at].block_hash != Some(cursor.hash)
                || receipts[at].block_number != Some(cursor.height) || receipts[at].transaction_index != Some(at as u64));
        }
    }
}

/// Checks that receipts are those of an authenticated block, and summarizes them.
pub fn check_receipts(
    cursor: BlockCursor,
    hashes: &Vec<B256>,
    receipts: &Vec<Receipt>,
) -> (r: Result<Vec<ReceiptSummary>, ReceiptError>)
    ensures
        match receipts_error(cursor, hashes@, receipts@) {
            Some(error) => r == Err::<Vec<ReceiptSummary>, ReceiptError>(error),
            None => r matches Ok(summaries) && summaries@.len() == receipts@.len() && forall|i: int|
                0 <= i < receipts@.len() ==> summarizes(#[trigger] summaries@[i], receipts@[i]),
        },
{
    if receipts.len() != hashes.len() {
        return Err(ReceiptError::CountMismatch);
    }
    let ghost check = |i: int|
        if belongs(receipts@[i], cursor, hashes@[i], i) {
            None
        } else {
            Some(ReceiptError::IdentityMismatch { height: cursor.height, index: i as usize })
        };
    let mut i: usize = 0;
    while i < receipts.len()
        invariant
            i <= receipts@.len(),
            receipts@.len() == hashes@.len(),
            check == (|i: int|
                if belongs(receipts@[i], cursor, hashes@[i], i) {
                    None
                } else {
                    Some(ReceiptError::IdentityMismatch { height: cursor.height, index: i as usize })
                }),
            forall|j: int| 0 <= j < i ==> (#[trigger] check(j)) is None,
        decreases receipts@.len() - i,
    {
        let receipt = &receipts[i];
        let ghost checked = check(i as int);
        if !(receipt.transaction_hash == hashes[i] && receipt.block_hash == Some(cursor.hash)
            && receipt.block_number == Some(cursor.height) && receipt.transaction_index == Some(
            i as u64,
        )) {
            proof {
                fold::lemma_error_at(receipts@.len(), check, i as int);
            }
            return Err(ReceiptError::IdentityMismatch { height: cursor.height, index: i });
        }
        i += 1;
    }
    proof {
        fold::lemma_no_error(receipts@.len(), check);
    }
    let mut summaries: Vec<ReceiptSummary> = Vec::new();
    let mut k: usize = 0;
    while k < receipts.len()
        invariant
            k <= receipts@.len(),
            summaries@.len() == k,
            forall|j: int| 0 <= j < k ==> summarizes(#[trigger] summaries@[j], receipts@[j]),
        decreases receipts@.len() - k,
    {
        summaries.push(receipt_summary(&receipts[k]));
        k += 1;
    }
    Ok(summaries)
}

// System transactions.

/// The incident of a system transaction that is not as it must be.
pub open spec fn system_incident(message: Seq<char>, now: u64) -> IncidentModel {
    IncidentModel {
        observed_at_ms: now,
        stage: "system_execution"@,
        message,
        history_failure: false,
    }
}

/// The incident of a system transaction that is not as it must be.
pub fn system_failure_at(message: String, now: u64) -> (r: Incident)
    ensures
        r@ == system_incident(message@, now),
{
    Incident {
        observed_at_ms: now,
        stage: "system_execution".to_owned(),
        message,
        history_failure: false,
    }
}

/// The incident of a system transaction that is not as it must be, at the machine's time.
pub fn system_failure(message: String) -> (r: Incident)
    ensures
        r@ == system_incident(message@, r@.observed_at_ms),
{
    system_failure_at(message, crate::now_ms())
}

/// The system transactions that a chain prescribes for the end of a block.
#[derive(Clone, Debug)]
pub struct SystemRules {
    pub count: usize,
    pub addresses: Vec<Address>,
}

/// How many system transactions a block has: as prescribed, and none since the fork that ended
/// them.
pub open spec fn expected_count(rules: SystemRules, t4_active: bool) -> usize {
    if t4_active {
        0
    } else {
        rules.count
    }
}

/// How many of the first `n` transactions are system ones.
pub open spec fn system_count(transactions: Seq<Envelope>, n: nat) -> nat
    decreases n,
{
    if n == 0 {
        0
    } else {
        system_count(transactions, (n - 1) as nat) + (if transactions[n - 1].is_system_tx {
            1nat
        } else {
            0
        })
    }
}

/// A hash as it is shown.
pub open spec fn hash_shown(hash: B256) -> Seq<char> {
    "0x"@ + foreign::hex(hash.bytes())
}

/// An address that may be absent, as it is shown for debugging.
pub open spec fn target_shown(to: Option<Address>) -> Seq<char> {
    match to {
        Some(address) => "Some("@ + ("0x"@ + foreign::hex(address.bytes())) + ")"@,
        None => "None"@,
    }
}

pub open spec fn count_message(expected: nat, count: nat) -> Seq<char> {
    "expected "@ + text::decimal(expected) + " system transactions, observed "@ + text::decimal(count)
}

pub open spec fn invalid_message(hash: B256) -> Seq<char> {
    "invalid system transaction "@ + hash_shown(hash)
}

pub open spec fn target_message(to: Option<Address>, wanted: Seq<char>) -> Seq<char> {
    "end-of-block system transaction has target "@ + target_shown(to) + ", expected "@ + wanted
}

/// Where the prescribed end of a block begins.
pub open spec fn tail_start(length: nat, expected: nat) -> nat {
    if length >= expected {
        (length - expected) as nat
    } else {
        0
    }
}

/// How many transactions at the end of a block have a prescribed target.
pub open spec fn tail_length(length: nat, expected: nat, addresses: nat) -> nat {
    let tail = (length - tail_start(length, expected)) as nat;
    if tail <= addresses {
        tail
    } else {
        addresses
    }
}

/// What is wrong with the system transactions of a block: their number, each one that is not valid,
/// and each place at the end of the block that does not hold the prescribed one.
pub open spec fn system_failures(
    transactions: Seq<Envelope>,
    rules: SystemRules,
    t4_active: bool,
    now: u64,
) -> Seq<IncidentModel> {
    let n = transactions.len();
    let expected = expected_count(rules, t4_active) as nat;
    let count = system_count(transactions, n);
    let start = tail_start(n, expected) as int;
    (if count != expected {
        seq![system_incident(count_message(expected, count), now)]
    } else {
        Seq::empty()
    }) + fold::gathered(
        n,
        |i: int|
            if transactions[i].is_system_tx && !transactions[i].is_valid_system_tx {
                seq![system_incident(invalid_message(transactions[i].hash), now)]
            } else {
                Seq::empty()
            },
    ) + fold::gathered(
        tail_length(n, expected, rules.addresses@.len()),
        |i: int|
            if !transactions[start + i].is_system_tx || transactions[start + i].to != Some(rules.addresses@[i]) {
                seq![
                    system_incident(
                        target_message(
                            transactions[start + i].to,
                            foreign::checksummed(rules.addresses@[i].bytes()),
                        ),
                        now,
                    ),
                ]
            } else {
                Seq::empty()
            },
    )
}

/// The system transactions among the first `n` are counted one by one.
proof fn lemma_system_count(transactions: Seq<Envelope>, n: nat)
    requires
        n <= transactions.len(),
    ensures
        system_count(transactions, n) == transactions.take(n as int).filter(|transaction: Envelope| transaction.is_system_tx).len(),
    decreases n,
{
    reveal(Seq::filter);
    if n > 0 {
        lemma_system_count(transactions, (n - 1) as nat);
        let wide = transactions.take(n as int);
        assert(wide.drop_last() =~= transactions.take(n - 1));
        assert(wide.last() == transactions[n - 1]);
    } else {
        assert(transactions.take(0) =~= Seq::empty());
    }
}

/// Positions that contribute nothing gather nothing, and one that contributes something shows.
proof fn lemma_gathers_nothing<B>(n: nat, part: spec_fn(int) -> Seq<B>)
    ensures
        fold::gathered(n, part).len() == 0 <==> forall|i: int| 0 <= i < n ==> (#[trigger] part(i)).len() == 0,
    decreases n,
{
    if n > 0 {
        lemma_gathers_nothing((n - 1) as nat, part);
        if forall|i: int| 0 <= i < n ==> (#[trigger] part(i)).len() == 0 {
            assert(part(n - 1).len() == 0);
        } else {
            let i = choose|i: int| 0 <= i < n && (#[trigger] part(i)).len() != 0;
            assert(part(i).len() != 0);
        }
    }
}

/// Nothing is wrong with the system transactions of a block if and only if there are as many as the
/// chain prescribes, which is none since the fork that ended them, every one of them is valid, and the
/// block ends with those to the prescribed addresses, in their order.
pub proof fn law_a_proper_block_ends_with_its_system_transactions(
    transactions: Seq<Envelope>,
    rules: SystemRules,
    t4_active: bool,
    now: u64,
)
    ensures
        ({
            let n = transactions.len() as int;
            let expected = if t4_active { 0int } else { rules.count as int };
            let start = if n >= expected { n - expected } else { 0int };
            system_failures(transactions, rules, t4_active, now).len() == 0 <==> {
                &&& transactions.filter(|transaction: Envelope| transaction.is_system_tx).len() == expected
                &&& forall|i: int| 0 <= i < n && (#[trigger] transactions[i]).is_system_tx ==> transactions[i].is_valid_system_tx
                &&& forall|i: int| start <= i < n && i - start < rules.addresses@.len() ==> (#[trigger] transactions[i]).is_system_tx
                    && transactions[i].to == Some(rules.addresses@[i - start])
            }
        }),
{
    let n = transactions.len() as int;
    let expected = expected_count(rules, t4_active) as nat;
    let start = tail_start(transactions.len(), expected) as int;
    let length = tail_length(transactions.len(), expected, rules.addresses@.len());
    lemma_system_count(transactions, transactions.len());
    assert(transactions.take(n) =~= transactions);
    let invalid = |i: int|
        if transactions[i].is_system_tx && !transactions[i].is_valid_system_tx {
            seq![system_incident(invalid_message(transactions[i].hash), now)]
        } else {
            Seq::empty()
        };
    let misplaced = |i: int|
        if !transactions[start + i].is_system_tx || transactions[start + i].to != Some(rules.addresses@[i]) {
            seq![
                system_incident(
                    target_message(transactions[start + i].to, foreign::checksummed(rules.addresses@[i].bytes())),
                    now,
                ),
            ]
        } else {
            Seq::empty()
        };
    lemma_gathers_nothing(transactions.len(), invalid);
    lemma_gathers_nothing(length, misplaced);
    let (a, b) = (fold::gathered(transactions.len(), invalid), fold::gathered(length, misplaced));
    if a.len() == 0 {
        assert forall|i: int| 0 <= i < n && (#[trigger] transactions[i]).is_system_tx implies transactions[i].is_valid_system_tx by {
            assert(invalid(i).len() == 0);
        }
    }
    if b.len() == 0 {
        assert forall|i: int| start <= i < n && i - start < rules.addresses@.len() implies (#[trigger] transactions[i]).is_system_tx
            && transactions[i].to == Some(rules.addresses@[i - start]) by {
            assert(misplaced(i - start).len() == 0);
        }
    } else {
        let i = choose|i: int| 0 <= i < length && (#[trigger] misplaced(i)).len() != 0;
        assert(misplaced(i).len() != 0);
        assert(transactions[start + i].is_system_tx || !transactions[start + i].is_system_tx);
    }
}

/// Whatever is wrong is said as an incident of system execution, at the time of the observation and as
/// no inconsistency of the history. A wrong number is said first, with both numbers; every system
/// transaction that is not valid is said by its hash, and every misplaced one by both targets.
pub proof fn law_what_is_wrong_is_said_of_each(
    transactions: Seq<Envelope>,
    rules: SystemRules,
    t4_active: bool,
    now: u64,
    i: int,
)
    requires
        0 <= i < transactions.len(),
    ensures
        ({
            let said = system_failures(transactions, rules, t4_active, now);
            let n = transactions.len() as int;
            let expected = if t4_active { 0int } else { rules.count as int };
            let start = if n >= expected { n - expected } else { 0int };
            let count = transactions.filter(|transaction: Envelope| transaction.is_system_tx).len();
            &&& forall|k: int| 0 <= k < said.len() ==> (#[trigger] said[k]).stage == "system_execution"@ && said[k].observed_at_ms
                == now && !said[k].history_failure
            &&& count != expected ==> said.len() > 0 && said[0].message == "expected "@ + text::decimal(expected as nat)
                + " system transactions, observed "@ + text::decimal(count)
            &&& transactions[i].is_system_tx && !transactions[i].is_valid_system_tx ==> said.contains(
                (IncidentModel {
                    observed_at_ms: now,
                    stage: "system_execution"@,
                    message: "invalid system transaction "@ + ("0x"@ + foreign::hex(transactions[i].hash.bytes())),
                    history_failure: false,
                }),
            )
            &&& start <= i && i - start < rules.addresses@.len() && (!transactions[i].is_system_tx || transactions[i].to != Some(
                rules.addresses@[i - start],
            )) ==> said.contains(
                system_incident(
                    target_message(transactions[i].to, foreign::checksummed(rules.addresses@[i - start].bytes())),
                    now,
                ),
            )
        }),
{
    let n = transactions.len() as int;
    let expected = expected_count(rules, t4_active) as nat;
    let start = tail_start(transactions.len(), expected) as int;
    let length = tail_length(transactions.len(), expected, rules.addresses@.len());
    lemma_system_count(transactions, transactions.len());
    assert(transactions.take(n) =~= transactions);
    let count = system_count(transactions, transactions.len());
    let head = if count != expected {
        seq![system_incident(count_message(expected, count), now)]
    } else {
        Seq::empty()
    };
    let invalid = |i: int|
        if transactions[i].is_system_tx && !transactions[i].is_valid_system_tx {
            seq![system_incident(invalid_message(transactions[i].hash), now)]
        } else {
            Seq::empty()
        };
    let misplaced = |i: int|
        if !transactions[start + i].is_system_tx || transactions[start + i].to != Some(rules.addresses@[i]) {
            seq![
                system_incident(
                    target_message(transactions[start + i].to, foreign::checksummed(rules.addresses@[i].bytes())),
                    now,
                ),
            ]
        } else {
            Seq::empty()
        };
    let (a, b) = (fold::gathered(transactions.len(), invalid), fold::gathered(length, misplaced));
    let said = system_failures(transactions, rules, t4_active, now);
    assert(said == head + a + b);
    assert forall|k: int| 0 <= k < said.len() implies (#[trigger] said[k]).stage == "system_execution"@ && said[k].observed_at_ms == now
        && !said[k].history_failure by {
        if k < head.len() {
            assert(said[k] == head[k]);
        } else if k < head.len() + a.len() {
            assert(said[k] == a[k - head.len()]);
            assert(a.contains(a[k - head.len()]));
            let at = fold::lemma_gathered_from(transactions.len(), invalid, a[k - head.len()]);
            let found = invalid(at);
            let j = choose|j: int| 0 <= j < found.len() && found[j] == said[k];
        } else {
            assert(said[k] == b[k - head.len() - a.len()]);
            assert(b.contains(b[k - head.len() - a.len()]));
            let at = fold::lemma_gathered_from(length, misplaced, b[k - head.len() - a.len()]);
            let found = misplaced(at);
            let j = choose|j: int| 0 <= j < found.len() && found[j] == said[k];
        }
    }
    if count != expected {
        assert(said[0] == head[0]);
    }
    if transactions[i].is_system_tx && !transactions[i].is_valid_system_tx {
        let one = system_incident(invalid_message(transactions[i].hash), now);
        assert(invalid(i)[0] == one);
        fold::lemma_gathered_holds(transactions.len(), invalid, i, one);
        let k = choose|k: int| 0 <= k < a.len() && a[k] == one;
        assert(said[head.len() + k] == one);
    }
    if start <= i && i - start < rules.addresses@.len() && (!transactions[i].is_system_tx || transactions[i].to != Some(
        rules.addresses@[i - start],
    )) {
        let one = system_incident(
            target_message(transactions[i].to, foreign::checksummed(rules.addresses@[i - start].bytes())),
            now,
        );
        assert(misplaced(i - start)[0] == one);
        fold::lemma_gathered_holds(length, misplaced, i - start, one);
        let k = choose|k: int| 0 <= k < b.len() && b[k] == one;
        assert(said[head.len() + a.len() + k] == one);
    }
}

/// A misplaced transaction is said with the target that it has, if any, and the one that it should have.
pub proof fn law_a_misplaced_transaction_is_said_with_both_targets(address: Address, wanted: Seq<char>)
    ensures
        target_message(Some(address), wanted) == "end-of-block system transaction has target "@ + ("Some("@ + ("0x"@ + foreign::hex(
            address.bytes(),
        )) + ")"@) + ", expected "@ + wanted,
        target_message(None, wanted) == "end-of-block system transaction has target "@ + "None"@ + ", expected "@ + wanted,
{
}

fn hash_message(lead: &str, hash: B256) -> (r: String)
    ensures
        r@ == lead@ + hash_shown(hash),
{
    let mut message = String::from_str(lead);
    let shown = foreign::hash_text(&hash.to_array());
    message.append(shown.as_str());
    message
}

/// What is said of a transaction that does not have the prescribed target, given as it is shown.
pub fn target_text(to: Option<Address>, wanted: &str) -> (r: String)
    ensures
        r@ == target_message(to, wanted@),
{
    let mut message = String::from_str("end-of-block system transaction has target ");
    match to {
        Some(address) => {
            message.append("Some(");
            let shown = foreign::address_debug_text(&address.to_array());
            message.append(shown.as_str());
            message.append(")");
        },
        None => {
            message.append("None");
        },
    }
    message.append(", expected ");
    message.append(wanted);
    assert(message@ =~= target_message(to, wanted@));
    message
}

proof fn lemma_incident_pushed(incidents: Seq<Incident>, incident: Incident)
    ensures
        state::incidents_view(incidents.push(incident)) == state::incidents_view(incidents).push(incident@),
{
    assert(state::incidents_view(incidents.push(incident)) =~= state::incidents_view(incidents).push(incident@));
}

/// What is wrong with the system transactions of a block.
pub fn system_invariant_failures_at(
    transactions: &Vec<Envelope>,
    rules: &SystemRules,
    t4_active: bool,
    now: u64,
) -> (r: Vec<Incident>)
    ensures
        state::incidents_view(r@) == system_failures(transactions@, *rules, t4_active, now),
{
    let expected: usize = if t4_active {
        0
    } else {
        rules.count
    };
    let total: usize = transactions.len();
    let mut count: usize = 0;
    let mut i: usize = 0;
    while i < transactions.len()
        invariant
            i <= transactions@.len(),
            total == transactions@.len(),
            count <= i,
            count == system_count(transactions@, i as nat),
        decreases transactions@.len() - i,
    {
        if transactions[i].is_system_tx {
            count += 1;
        }
        i += 1;
    }
    let mut failures: Vec<Incident> = Vec::new();
    if count != expected {
        let mut message = String::from_str("expected ");
        text::push_decimal(&mut message, expected as u64);
        message.append(" system transactions, observed ");
        text::push_decimal(&mut message, count as u64);
        let failure = system_failure_at(message, now);
        proof {
            lemma_incident_pushed(failures@, failure);
        }
        failures.push(failure);
    }
    let ghost head = state::incidents_view(failures@);
    assert(head =~= (if count != expected {
        seq![system_incident(count_message(expected as nat, count as nat), now)]
    } else {
        Seq::empty()
    }));
    let ghost part_a = |i: int|
        if transactions@[i].is_system_tx && !transactions@[i].is_valid_system_tx {
            seq![system_incident(invalid_message(transactions@[i].hash), now)]
        } else {
            Seq::empty()
        };
    assert(head + fold::gathered(0, part_a) =~= head);
    let mut k: usize = 0;
    while k < transactions.len()
        invariant
            k <= transactions@.len(),
            part_a == (|i: int|
                if transactions@[i].is_system_tx && !transactions@[i].is_valid_system_tx {
                    seq![system_incident(invalid_message(transactions@[i].hash), now)]
                } else {
                    Seq::empty()
                }),
            state::incidents_view(failures@) == head + fold::gathered(k as nat, part_a),
        decreases transactions@.len() - k,
    {
        let ghost before = state::incidents_view(failures@);
        let tx = &transactions[k];
        if tx.is_system_tx && !tx.is_valid_system_tx {
            let failure = system_failure_at(hash_message("invalid system transaction ", tx.hash), now);
            proof {
                lemma_incident_pushed(failures@, failure);
                assert(before.push(failure@) =~= before + part_a(k as int));
            }
            failures.push(failure);
        } else {
            assert(before + part_a(k as int) =~= before);
        }
        assert(head + fold::gathered(k as nat, part_a) + part_a(k as int) =~= head + (fold::gathered(k as nat, part_a) + part_a(k as int)));
        k += 1;
    }
    let ghost middle = state::incidents_view(failures@);
    let start: usize = if total >= expected {
        total - expected
    } else {
        0
    };
    let length: usize = if total - start <= rules.addresses.len() {
        total - start
    } else {
        rules.addresses.len()
    };
    let ghost part_b = |i: int|
        if !transactions@[start + i].is_system_tx || transactions@[start + i].to != Some(rules.addresses@[i]) {
            seq![
                system_incident(
                    target_message(transactions@[start + i].to, foreign::checksummed(rules.addresses@[i].bytes())),
                    now,
                ),
            ]
        } else {
            Seq::empty()
        };
    assert(middle + fold::gathered(0, part_b) =~= middle);
    let mut j: usize = 0;
    while j < length
        invariant
            j <= length,
            length <= rules.addresses@.len(),
            total == transactions@.len(),
            start + length <= total,
            part_b == (|i: int|
                if !transactions@[start + i].is_system_tx || transactions@[start + i].to != Some(rules.addresses@[i]) {
                    seq![
                        system_incident(
                            target_message(
                                transactions@[start + i].to,
                                foreign::checksummed(rules.addresses@[i].bytes()),
                            ),
                            now,
                        ),
                    ]
                } else {
                    Seq::empty()
                }),
            state::incidents_view(failures@) == middle + fold::gathered(j as nat, part_b),
        decreases length - j,
    {
        let ghost before = state::incidents_view(failures@);
        let tx = &transactions[start + j];
        let expected_to = rules.addresses[j];
        if !tx.is_system_tx || tx.to != Some(expected_to) {
            let wanted = foreign::address_text(&expected_to.to_array());
            let failure = system_failure_at(target_text(tx.to, wanted.as_str()), now);
            proof {
                lemma_incident_pushed(failures@, failure);
                assert(before.push(failure@) =~= before + part_b(j as int));
            }
            failures.push(failure);
        } else {
            assert(before + part_b(j as int) =~= before);
        }
        assert(middle + fold::gathered(j as nat, part_b) + part_b(j as int) =~= middle + (fold::gathered(j as nat, part_b) + part_b(j as int)));
        j += 1;
    }
    failures
}

/// What is wrong with the system transactions of a block, at the machine's time.
pub fn system_invariant_failures(
    transactions: &Vec<Envelope>,
    rules: &SystemRules,
    t4_active: bool,
) -> (r: Vec<Incident>)
    ensures
        exists|now: u64| state::incidents_view(r@) == #[trigger] system_failures(transactions@, *rules, t4_active, now),
{
    system_invariant_failures_at(transactions, rules, t4_active, crate::now_ms())
}

// Target blocks.

/// What a finalized target block shows.
#[derive(Debug)]
pub struct Observed {
    pub observations: Vec<TargetObservation>,
    pub system_txs: u64,
    pub failures: Vec<Incident>,
}

/// A target block has more transactions than can be numbered.
#[derive(Clone, Copy, Debug, PartialEq, Eq, Structural)]
pub struct TooManyTransactions;

/// Where a transaction stands in a target block.
pub open spec fn place(block: FinalizedBlock, index: int) -> TxLocation {
    TxLocation { block: block.cursor, index: index as u32, timestamp_ms: block.timestamp_ms }
}

/// What the transaction at a position shows of relayed traffic.
pub open spec fn relayed_at(block: FinalizedBlock, receipts: Seq<ReceiptSummary>) -> spec_fn(int) -> Seq<TargetObservation> {
    |i: int|
        if block.transactions@[i].is_replayable() {
            seq![
                TargetObservation {
                    transaction_hash: block.transactions@[i].hash,
                    location: place(block, i),
                    receipt: receipts[i],
                },
            ]
        } else {
            Seq::empty()
        }
}

pub open spec fn revert_message(hash: B256, height: u64, index: int) -> Seq<char> {
    "system/subblock transaction "@ + hash_shown(hash) + " reverted at "@ + text::decimal(height as nat) + ":"@
        + text::decimal(index as nat)
}

/// The incident of a system or subblock transaction that reverted.
pub open spec fn reverted_at(block: FinalizedBlock, receipts: Seq<ReceiptSummary>, now: u64) -> spec_fn(int) -> Seq<IncidentModel> {
    |i: int|
        if !block.transactions@[i].is_replayable() && !receipts[i].status {
            seq![
                system_incident(
                    revert_message(block.transactions@[i].hash, block.cursor.height, i),
                    now,
                ),
            ]
        } else {
            Seq::empty()
        }
}

/// How many of the first `n` transactions of a block were not relayed.
pub open spec fn unrelayed(transactions: Seq<Envelope>, n: nat) -> nat
    decreases n,
{
    if n == 0 {
        0
    } else {
        unrelayed(transactions, (n - 1) as nat) + (if transactions[n - 1].is_replayable() {
            0nat
        } else {
            1
        })
    }
}

/// How many transactions of a block are read: as many as have a receipt.
pub open spec fn read_length(block: FinalizedBlock, receipts: Seq<ReceiptSummary>) -> nat {
    if block.transactions@.len() <= receipts.len() {
        block.transactions@.len()
    } else {
        receipts.len()
    }
}

fn revert_text(hash: B256, height: u64, index: usize) -> (r: String)
    ensures
        r@ == revert_message(hash, height, index as int),
{
    let mut message = hash_message("system/subblock transaction ", hash);
    message.append(" reverted at ");
    text::push_decimal(&mut message, height);
    message.append(":");
    text::push_decimal(&mut message, index as u64);
    message
}

/// Reads a finalized target block with its receipts: the occurrences of relayed traffic, how many
/// transactions are of the system or of subblocks, and what is wrong with these.
pub fn observe_block_at(
    block: &FinalizedBlock,
    receipts: &Vec<ReceiptSummary>,
    rules: &SystemRules,
    t4_active: bool,
    now: u64,
) -> (r: Result<Observed, TooManyTransactions>)
    ensures
        r is Err <==> read_length(*block, receipts@) > u32::MAX + 1,
        r matches Ok(observed) ==> {
            let n = read_length(*block, receipts@);
            &&& observed.observations@ == fold::gathered(n, relayed_at(*block, receipts@))
            &&& observed.system_txs == unrelayed(block.transactions@, n)
            &&& state::incidents_view(observed.failures@) == system_failures(block.transactions@, *rules, t4_active, now)
                + fold::gathered(n, reverted_at(*block, receipts@, now))
        },
{
    let mut failures = system_invariant_failures_at(&block.transactions, rules, t4_active, now);
    let ghost head = state::incidents_view(failures@);
    let mut observations: Vec<TargetObservation> = Vec::new();
    let mut system_txs: u64 = 0;
    let length: usize = if block.transactions.len() <= receipts.len() {
        block.transactions.len()
    } else {
        receipts.len()
    };
    let ghost part = relayed_at(*block, receipts@);
    let ghost wrong = reverted_at(*block, receipts@, now);
    assert(observations@ =~= fold::gathered(0, part));
    assert(head + fold::gathered(0, wrong) =~= head);
    let mut i: usize = 0;
    while i < length
        invariant
            i <= length,
            length == read_length(*block, receipts@),
            i <= u32::MAX + 1,
            part == relayed_at(*block, receipts@),
            wrong == reverted_at(*block, receipts@, now),
            head == system_failures(block.transactions@, *rules, t4_active, now),
            observations@ == fold::gathered(i as nat, part),
            system_txs == unrelayed(block.transactions@, i as nat),
            system_txs <= i,
            state::incidents_view(failures@) == head + fold::gathered(i as nat, wrong),
        decreases length - i,
    {
        if i as u64 > u32::MAX as u64 {
            return Err(TooManyTransactions);
        }
        let tx = &block.transactions[i];
        let receipt = receipts[i];
        let location = TxLocation {
            block: block.cursor,
            index: i as u32,
            timestamp_ms: block.timestamp_ms,
        };
        let ghost seen = observations@;
        let ghost before = state::incidents_view(failures@);
        if source::replayable(tx) {
            observations.push(
                TargetObservation { transaction_hash: tx.hash, location, receipt },
            );
            assert(observations@ =~= seen + part(i as int));
            assert(before + wrong(i as int) =~= before);
        } else {
            system_txs = system_txs + 1;
            assert(seen + part(i as int) =~= seen);
            if !receipt.status {
                let failure = system_failure_at(revert_text(tx.hash, location.block.height, i), now);
                proof {
                    lemma_incident_pushed(failures@, failure);
                    assert(before.push(failure@) =~= before + wrong(i as int));
                }
                failures.push(failure);
            } else {
                assert(before + wrong(i as int) =~= before);
            }
        }
        assert(head + fold::gathered(i as nat, wrong) + wrong(i as int) =~= head + (fold::gathered(i as nat, wrong) + wrong(i as int)));
        i += 1;
    }
    Ok(Observed { observations, system_txs, failures })
}

/// Every occurrence that a block shows stands in this block, at its own position.
pub proof fn law_observations_stand_in_their_block(block: FinalizedBlock, receipts: Seq<ReceiptSummary>, n: nat)
    requires
        n <= read_length(block, receipts),
        n <= u32::MAX + 1,
    ensures
        crate::evidence::intake_laws::of_block(block.cursor, fold::gathered(n, relayed_at(block, receipts))),
        forall|i: int| 0 <= i < fold::gathered(n, relayed_at(block, receipts)).len() ==> (
        #[trigger] fold::gathered(n, relayed_at(block, receipts))[i]).location.index < n,
    decreases n,
{
    let part = relayed_at(block, receipts);
    if n > 0 {
        law_observations_stand_in_their_block(block, receipts, (n - 1) as nat);
        let before = fold::gathered((n - 1) as nat, part);
        let all = fold::gathered(n, part);
        assert forall|i: int| 0 <= i < all.len() implies (#[trigger] all[i]).location.block == block.cursor
            && all[i].location.index < n by {
            if i < before.len() {
                assert(all[i] == before[i]);
            }
        }
        assert forall|i: int, j: int| 0 <= i < j < all.len() implies (#[trigger] all[i]).location.index
            != (#[trigger] all[j]).location.index by {
            assert(all[i] == before[i]);
            if j < before.len() {
                assert(all[j] == before[j]);
            }
        }
    }
}

/// A target block shows every public transaction of it that has a receipt: by its hash, where it stands
/// in this block and when, and with the receipt at its position; and it shows nothing else, in the order
/// of the block.
pub proof fn law_a_block_shows_its_public_transactions(block: FinalizedBlock, receipts: Seq<ReceiptSummary>, i: int)
    requires
        read_length(block, receipts) <= u32::MAX + 1,
        0 <= i < block.transactions@.len(),
        i < receipts.len(),
    ensures
        ({
            let shown = fold::gathered(read_length(block, receipts), relayed_at(block, receipts));
            let one = TargetObservation {
                transaction_hash: block.transactions@[i].hash,
                location: TxLocation { block: block.cursor, index: i as u32, timestamp_ms: block.timestamp_ms },
                receipt: receipts[i],
            };
            let public = !block.transactions@[i].is_system_tx && !block.transactions@[i].has_sub_block_nonce_key_prefix;
            &&& shown.contains(one) <==> public
            &&& forall|k: int| 0 <= k < shown.len() ==> {
                let at = (#[trigger] shown[k]).location.index as int;
                &&& at < block.transactions@.len() && at < receipts.len()
                &&& shown[k].location.block == block.cursor
                &&& shown[k].location.timestamp_ms == block.timestamp_ms
                &&& shown[k].transaction_hash == block.transactions@[at].hash
                &&& shown[k].receipt == receipts[at]
                &&& !block.transactions@[at].is_system_tx && !block.transactions@[at].has_sub_block_nonce_key_prefix
            }
            &&& forall|a: int, b: int| 0 <= a < b < shown.len() ==> (#[trigger] shown[a]).location.index
                < (#[trigger] shown[b]).location.index
        }),
{
    let n = read_length(block, receipts);
    let part = relayed_at(block, receipts);
    let shown = fold::gathered(n, part);
    let one = TargetObservation { transaction_hash: block.transactions@[i].hash, location: place(block, i), receipt: receipts[i] };
    lemma_shown(block, receipts, n);
    if block.transactions@[i].is_replayable() {
        assert(part(i)[0] == one);
        fold::lemma_gathered_holds(n, part, i, one);
    }
    if shown.contains(one) {
        let k = choose|k: int| 0 <= k < shown.len() && shown[k] == one;
        assert(shown[k].location.index as int == i);
    }
}

proof fn lemma_shown(block: FinalizedBlock, receipts: Seq<ReceiptSummary>, n: nat)
    requires
        n <= read_length(block, receipts),
        n <= u32::MAX + 1,
    ensures
        ({
            let shown = fold::gathered(n, relayed_at(block, receipts));
            &&& forall|k: int| 0 <= k < shown.len() ==> {
                let at = (#[trigger] shown[k]).location.index as int;
                &&& at < n
                &&& shown[k].location.block == block.cursor
                &&& shown[k].location.timestamp_ms == block.timestamp_ms
                &&& shown[k].transaction_hash == block.transactions@[at].hash
                &&& shown[k].receipt == receipts[at]
                &&& block.transactions@[at].is_replayable()
            }
            &&& forall|a: int, b: int| 0 <= a < b < shown.len() ==> (#[trigger] shown[a]).location.index
                < (#[trigger] shown[b]).location.index
        }),
    decreases n,
{
    if n > 0 {
        lemma_shown(block, receipts, (n - 1) as nat);
        let part = relayed_at(block, receipts);
        let (rest, shown) = (fold::gathered((n - 1) as nat, part), fold::gathered(n, part));
        assert forall|k: int| 0 <= k < shown.len() implies {
            let at = (#[trigger] shown[k]).location.index as int;
            &&& at < n
            &&& shown[k].location.block == block.cursor
            &&& shown[k].location.timestamp_ms == block.timestamp_ms
            &&& shown[k].transaction_hash == block.transactions@[at].hash
            &&& shown[k].receipt == receipts[at]
            &&& block.transactions@[at].is_replayable()
        } by {
            if k < rest.len() {
                assert(shown[k] == rest[k]);
            } else {
                assert(shown[k] == part(n - 1)[k - rest.len()]);
            }
        }
        assert forall|a: int, b: int| 0 <= a < b < shown.len() implies (#[trigger] shown[a]).location.index
            < (#[trigger] shown[b]).location.index by {
            assert(shown[a] == rest[a]);
            if b < rest.len() {
                assert(shown[b] == rest[b]);
            } else {
                assert(shown[b] == part(n - 1)[b - rest.len()]);
            }
        }
    }
}

/// Of the transactions with a receipt those that are not public are counted, and each of them that
/// reverted makes an incident that says its hash and where it stands; a public one that reverted makes
/// none.
pub proof fn law_other_transactions_are_counted_and_must_not_revert(
    block: FinalizedBlock,
    receipts: Seq<ReceiptSummary>,
    now: u64,
    n: nat,
)
    requires
        n <= read_length(block, receipts),
    ensures
        read_length(block, receipts) <= block.transactions@.len() && read_length(block, receipts) <= receipts.len(),
        read_length(block, receipts) == block.transactions@.len() || read_length(block, receipts) == receipts.len(),
        unrelayed(block.transactions@, n) == block.transactions@.take(n as int).filter(
            |transaction: Envelope| transaction.is_system_tx || transaction.has_sub_block_nonce_key_prefix,
        ).len(),
        forall|i: int| 0 <= i < n ==> (#[trigger] reverted_at(block, receipts, now)(i)) == (if (block.transactions@[i].is_system_tx
            || block.transactions@[i].has_sub_block_nonce_key_prefix) && !receipts[i].status {
            seq![
                IncidentModel {
                    observed_at_ms: now,
                    stage: "system_execution"@,
                    message: "system/subblock transaction "@ + ("0x"@ + foreign::hex(block.transactions@[i].hash.bytes()))
                        + " reverted at "@ + text::decimal(block.cursor.height as nat) + ":"@ + text::decimal(i as nat),
                    history_failure: false,
                },
            ]
        } else {
            Seq::empty()
        }),
    decreases n,
{
    let other = |transaction: Envelope| transaction.is_system_tx || transaction.has_sub_block_nonce_key_prefix;
    reveal(Seq::filter);
    if n > 0 {
        law_other_transactions_are_counted_and_must_not_revert(block, receipts, now, (n - 1) as nat);
        let wide = block.transactions@.take(n as int);
        assert(wide.drop_last() =~= block.transactions@.take(n - 1));
        assert(wide.last() == block.transactions@[n - 1]);
    } else {
        assert(block.transactions@.take(0) =~= Seq::empty());
    }
}

/// Whether a failure of a worker is recorded. One durable incident per outage episode, not one
/// write per retry during an outage; an inconsistent history is always recorded.
#[derive(Clone, Copy, Debug, Default, PartialEq, Eq, Structural)]
pub struct Episode {
    pub failed: bool,
}

impl Episode {
    /// Whether a failure is recorded.
    pub open spec fn reports(self, history: bool) -> bool {
        !self.failed || history
    }

    /// The episode after a failure.
    pub open spec fn after_failure(self) -> Episode {
        Episode { failed: true }
    }

    /// The episode after a success.
    pub open spec fn after_success(self) -> Episode {
        Episode { failed: false }
    }

    /// A failure came; tells whether to record it.
    pub fn failure(&mut self, history: bool) -> (r: bool)
        ensures
            r == old(self).reports(history),
            *final(self) == old(self).after_failure(),
    {
        let report = !self.failed || history;
        self.failed = true;
        report
    }

    /// The work succeeded, which ends the episode.
    pub fn success(&mut self)
        ensures
            *final(self) == old(self).after_success(),
    {
        self.failed = false;
    }
}

/// One incident per outage: after a failure, further ones are not recorded until the work succeeds
/// again, and the first one after that is. An inconsistent history is recorded at any time.
pub proof fn law_an_outage_makes_one_incident(episode: Episode)
    ensures
        !episode.after_failure().reports(false),
        episode.after_success().reports(false),
        episode.reports(true),
{
}

/// A failure is recorded if and only if it is the first since the work last succeeded, or shows an
/// inconsistent history; an episode lasts from a failure to the next success.
pub proof fn law_an_episode_lasts_from_a_failure_to_a_success(episode: Episode, history: bool)
    ensures
        episode.reports(history) <==> !episode.failed || history,
        episode.after_failure().failed,
        !episode.after_success().failed,
{
}

/// Whether a target header follows the block that was committed last.
pub fn follows(previous: BlockCursor, number: u64, parent_hash: B256) -> (r: bool)
    requires
        previous.height < u64::MAX,
    ensures
        r == (number == previous.height + 1 && parent_hash == previous.hash),
{
    number == previous.height + 1 && parent_hash == previous.hash
}

} // verus!
