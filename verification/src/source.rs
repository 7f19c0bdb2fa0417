//! Typed access to finalized blocks and their transactions.

use crate::foreign;
use crate::state::BlockCursor;
use crate::table;
use crate::words::{Address, B256, U256};
use vstd::prelude::*;
use vstd::string::StrSliceExecFns;
use vstd::string::StringExecFns;

verus! {

/// A signed transaction: its exact encoding and what its envelope says of it.
#[derive(Clone, Debug)]
pub struct Envelope {
    /// The typed-transaction encoding that was signed and is submitted.
    pub raw: Vec<u8>,
    pub hash: B256,
    pub transaction_type: u8,
    /// A transaction that the protocol itself puts into a block.
    pub is_system_tx: bool,
    /// Whether a system transaction has the form that the chain prescribes.
    pub is_valid_system_tx: bool,
    /// The nonce key reserves the transaction for a validator's subblock.
    pub has_sub_block_nonce_key_prefix: bool,
    /// The account that signed, where the signature recovers to one.
    pub signer: Option<Address>,
    pub to: Option<Address>,
    pub nonce: u64,
    pub nonce_key: Option<U256>,
    pub is_expiring_nonce: bool,
    pub gas_limit: u64,
    pub valid_before: Option<u64>,
    pub valid_after: Option<u64>,
}

/// Full block matched to a certificate-authenticated finalized header.
#[derive(Clone, Debug)]
pub struct FinalizedBlock {
    pub cursor: BlockCursor,
    pub timestamp_ms: u64,
    pub transactions: Vec<Envelope>,
}

/// Shared fields for a non-system transaction.
#[derive(Clone, Copy, Debug, PartialEq, Eq, Structural)]
pub struct ReplayMetadata {
    pub hash: B256,
    pub transaction_type: u8,
    pub sender: Address,
    pub nonce: u64,
    pub nonce_key: U256,
    pub expiring: bool,
    pub encoded_length: u64,
    pub gas_limit: u64,
    pub valid_before: Option<u64>,
    pub valid_after: Option<u64>,
}

/// Shared classification and fields used by mirror, audit, and profile.
#[derive(Clone, Copy, Debug, PartialEq, Eq, Structural)]
pub enum TxMetadata {
    System,
    Subblock(ReplayMetadata),
    Replayable(ReplayMetadata),
}

/// The signer of a source transaction could not be recovered.
#[derive(Clone, Copy, Debug, PartialEq, Eq, Structural)]
pub struct SignerError;

impl Envelope {
    /// The fields that replay shares, where the signer is known.
    pub open spec fn metadata(self) -> Option<ReplayMetadata> {
        match self.signer {
            None => None,
            Some(sender) => Some(
                ReplayMetadata {
                    hash: self.hash,
                    transaction_type: self.transaction_type,
                    sender,
                    nonce: self.nonce,
                    nonce_key: match self.nonce_key {
                        Some(key) => key,
                        None => U256 { hi: 0, lo: 0 },
                    },
                    expiring: self.is_expiring_nonce,
                    encoded_length: self.raw@.len() as u64,
                    gas_limit: self.gas_limit,
                    valid_before: self.valid_before,
                    valid_after: self.valid_after,
                },
            ),
        }
    }

    /// System transactions have no shared fields; any other one needs a signer.
    pub open spec fn classified(self) -> Result<TxMetadata, SignerError> {
        if self.is_system_tx {
            Ok(TxMetadata::System)
        } else {
            match self.metadata() {
                None => Err(SignerError),
                Some(metadata) => if self.has_sub_block_nonce_key_prefix {
                    Ok(TxMetadata::Subblock(metadata))
                } else {
                    Ok(TxMetadata::Replayable(metadata))
                },
            }
        }
    }

    /// Users signed it for the public pool.
    pub open spec fn is_replayable(self) -> bool {
        !self.is_system_tx && !self.has_sub_block_nonce_key_prefix
    }
}

impl ReplayMetadata {
    /// The shared fields of a transaction.
    pub fn from_envelope(transaction: &Envelope) -> (r: Result<Self, SignerError>)
        ensures
            r == (match transaction.metadata() {
                Some(metadata) => Ok::<ReplayMetadata, SignerError>(metadata),
                None => Err(SignerError),
            }),
    {
        let sender = match transaction.signer {
            Some(sender) => sender,
            None => {
                return Err(SignerError);
            },
        };
        Ok(
            ReplayMetadata {
                hash: transaction.hash,
                transaction_type: transaction.transaction_type,
                sender,
                nonce: transaction.nonce,
                nonce_key: match transaction.nonce_key {
                    Some(key) => key,
                    None => U256 { hi: 0, lo: 0 },
                },
                expiring: transaction.is_expiring_nonce,
                encoded_length: transaction.raw.len() as u64,
                gas_limit: transaction.gas_limit,
                valid_before: transaction.valid_before,
                valid_after: transaction.valid_after,
            },
        )
    }
}

impl TxMetadata {
    /// The class of a transaction and, unless it is a system one, its shared fields.
    pub fn from_envelope(transaction: &Envelope) -> (r: Result<Self, SignerError>)
        ensures
            r == transaction.classified(),
    {
        if transaction.is_system_tx {
            return Ok(TxMetadata::System);
        }
        match ReplayMetadata::from_envelope(transaction) {
            Err(error) => Err(error),
            Ok(metadata) => if transaction.has_sub_block_nonce_key_prefix {
                Ok(TxMetadata::Subblock(metadata))
            } else {
                Ok(TxMetadata::Replayable(metadata))
            },
        }
    }
}

/// Whether a transaction is one that is relayed to the target.
pub fn replayable(transaction: &Envelope) -> (r: bool)
    ensures
        r == transaction.is_replayable(),
{
    !transaction.is_system_tx && !transaction.has_sub_block_nonce_key_prefix
}

/// The filter and the classification agree: what is classified as replayable passes the filter,
/// and what passes it is so classified where its signer is known.
pub proof fn law_filter_agrees_with_classification(transaction: Envelope)
    ensures
        transaction.classified() matches Ok(TxMetadata::Replayable(_)) ==> transaction.is_replayable(),
        transaction.is_replayable() && transaction.signer is Some ==> (
        transaction.classified() matches Ok(TxMetadata::Replayable(metadata)) && metadata.hash
            == transaction.hash),
{
}

/// A transaction is of one of three classes, by who put it into the block: a system transaction needs
/// no signer; any other one needs one, and is of a subblock or of the public pool by its nonce key. Its
/// shared fields are those of its envelope, its length is that of its bytes, and no nonce key is zero.
pub proof fn law_the_class_and_fields_are_those_of_the_envelope(transaction: Envelope)
    ensures
        ({
            let class = transaction.classified();
            let fields = if class is Ok && class->Ok_0 is Subblock { class->Ok_0->Subblock_0 } else { class->Ok_0->Replayable_0 };
            &&& class is Err <==> !transaction.is_system_tx && transaction.signer is None
            &&& class == Ok::<TxMetadata, SignerError>(TxMetadata::System) <==> transaction.is_system_tx
            &&& class is Ok && class->Ok_0 is Subblock <==> !transaction.is_system_tx && transaction.signer is Some
                && transaction.has_sub_block_nonce_key_prefix
            &&& class is Ok && class->Ok_0 is Replayable <==> !transaction.is_system_tx && transaction.signer is Some
                && !transaction.has_sub_block_nonce_key_prefix
            &&& class is Ok && !transaction.is_system_tx ==> {
                &&& fields.hash == transaction.hash
                &&& fields.transaction_type == transaction.transaction_type
                &&& fields.sender == transaction.signer->0
                &&& fields.nonce == transaction.nonce
                &&& transaction.nonce_key is Some ==> fields.nonce_key == transaction.nonce_key->0
                &&& transaction.nonce_key is None ==> fields.nonce_key.hi == 0 && fields.nonce_key.lo == 0
                &&& fields.expiring == transaction.is_expiring_nonce
                &&& fields.encoded_length == transaction.raw@.len() as u64
                &&& fields.gas_limit == transaction.gas_limit
                &&& fields.valid_before == transaction.valid_before
                &&& fields.valid_after == transaction.valid_after
            }
            &&& transaction.is_replayable() <==> !transaction.is_system_tx && !transaction.has_sub_block_nonce_key_prefix
            &&& transaction.metadata() is Some <==> transaction.signer is Some
        }),
{
}

// Authenticated history.

/// A fetched block must agree with the authenticated chain, not just an RPC height.
#[derive(Clone, Copy, Debug, PartialEq, Eq)]
pub struct HistoryError(pub &'static str);

/// Why the authenticated stream of finalized headers failed.
#[derive(Clone, Copy, Debug, PartialEq, Eq, Structural)]
pub enum StreamFailure {
    Rpc,
    MissingHeader,
    MissingTransitionCertificate,
    /// Headers or certificates do not verify.
    Inconsistent,
}

/// What lies behind a failure of a worker.
#[derive(Clone, Copy, Debug, PartialEq, Eq, Structural)]
pub enum FailureKind {
    /// A block disagrees with the authenticated chain.
    History,
    Stream(StreamFailure),
    Other,
}

/// Whether a failure shows an inconsistent history. What may be an outage does not: an RPC failure,
/// or a header or certificate that is not there yet.
pub fn history_failure(failure: FailureKind) -> (r: bool)
    ensures
        r == (failure == FailureKind::History || failure == FailureKind::Stream(
            StreamFailure::Inconsistent,
        )),
{
    match failure {
        FailureKind::History => true,
        FailureKind::Stream(failure) => match failure {
            StreamFailure::Rpc => false,
            StreamFailure::MissingHeader => false,
            StreamFailure::MissingTransitionCertificate => false,
            StreamFailure::Inconsistent => true,
        },
        FailureKind::Other => false,
    }
}

/// What an authenticated finalized header says of its block.
#[derive(Clone, Copy, Debug, PartialEq, Eq, Structural)]
pub struct FinalizedHeader {
    pub number: u64,
    pub hash: B256,
    pub timestamp_ms: u64,
    pub transactions_root: B256,
}

/// A full block as the RPC gave it.
#[derive(Clone, Debug)]
pub struct FetchedBlock {
    pub hash: B256,
    /// Every field of its header is that of the authenticated one.
    pub header_agrees: bool,
    pub transactions: Vec<Envelope>,
}

/// The encoded transactions of a block.
pub open spec fn encoded(transactions: Seq<Envelope>) -> Seq<Seq<u8>> {
    transactions.map_values(|transaction: Envelope| transaction.raw@)
}

/// How a fetched block with this transaction root disagrees with the authenticated header, if it
/// does.
pub open spec fn disagreement(header: FinalizedHeader, hash: B256, header_agrees: bool, root: B256) -> Option<Seq<char>> {
    if hash != header.hash {
        Some("RPC block hash disagrees with authenticated finalized header"@)
    } else if !header_agrees {
        Some("RPC block header disagrees with authenticated finalized header"@)
    } else if root != header.transactions_root {
        Some("RPC transaction body disagrees with authenticated finalized header"@)
    } else {
        None
    }
}

/// A fetched block agrees with the authenticated header if and only if its hash, its whole header and
/// the root of its transactions do; of several disagreements the first of these is told.
pub proof fn law_a_block_agrees_in_hash_header_and_body(header: FinalizedHeader, hash: B256, header_agrees: bool, root: B256)
    ensures
        disagreement(header, hash, header_agrees, root) is None <==> hash == header.hash && header_agrees && root
            == header.transactions_root,
        hash != header.hash ==> disagreement(header, hash, header_agrees, root) == Some(
            "RPC block hash disagrees with authenticated finalized header"@,
        ),
        hash == header.hash && !header_agrees ==> disagreement(header, hash, header_agrees, root) == Some(
            "RPC block header disagrees with authenticated finalized header"@,
        ),
        hash == header.hash && header_agrees && root != header.transactions_root ==> disagreement(
            header,
            hash,
            header_agrees,
            root,
        ) == Some("RPC transaction body disagrees with authenticated finalized header"@),
{
}

/// The root is taken over the exact bytes of every transaction, in their order.
pub proof fn law_the_root_covers_every_transaction(transactions: Seq<Envelope>)
    ensures
        encoded(transactions).len() == transactions.len(),
        forall|i: int| 0 <= i < transactions.len() ==> #[trigger] encoded(transactions)[i] == transactions[i].raw@,
{
}

/// Holds a fetched block with this transaction root against the authenticated header.
pub fn compare_block(header: &FinalizedHeader, hash: B256, header_agrees: bool, root: B256) -> (r: Result<
    (),
    HistoryError,
>)
    ensures
        match disagreement(*header, hash, header_agrees, root) {
            Some(message) => r matches Err(error) && error.0@ == message,
            None => r is Ok,
        },
{
    if hash != header.hash {
        return Err(HistoryError("RPC block hash disagrees with authenticated finalized header"));
    }
    if !header_agrees {
        return Err(HistoryError("RPC block header disagrees with authenticated finalized header"));
    }
    if root != header.transactions_root {
        return Err(
            HistoryError("RPC transaction body disagrees with authenticated finalized header"),
        );
    }
    Ok(())
}

/// The transaction root of some transactions.
pub fn transaction_root(transactions: &Vec<Envelope>) -> (r: B256)
    ensures
        r.bytes() == foreign::trie_root(encoded(transactions@)),
{
    let mut items: Vec<Vec<u8>> = Vec::new();
    let mut i: usize = 0;
    while i < transactions.len()
        invariant
            i <= transactions@.len(),
            items@.len() == i,
            forall|j: int| 0 <= j < i ==> (#[trigger] items@[j])@ == transactions@[j].raw@,
        decreases transactions@.len() - i,
    {
        let raw = transactions[i].raw.clone();
        assert(raw@ == transactions@[i as int].raw@);
        items.push(raw);
        i += 1;
    }
    assert(table::key_views(items@) =~= encoded(transactions@));
    B256::from_bytes(&foreign::ordered_trie_root(&items))
}

/// Takes a fetched block if it is the one that the authenticated header is of: by its hash, its
/// whole header and the root of its transactions.
pub fn accept_block(header: &FinalizedHeader, block: FetchedBlock) -> (r: Result<FinalizedBlock, HistoryError>)
    ensures
        exists|root: B256| {
            &&& #[trigger] root.bytes() == foreign::trie_root(encoded(block.transactions@))
            &&& match disagreement(*header, block.hash, block.header_agrees, root) {
                Some(message) => r matches Err(error) && error.0@ == message,
                None => r matches Ok(accepted) && {
                    &&& accepted.cursor == (BlockCursor { height: header.number, hash: header.hash })
                    &&& accepted.timestamp_ms == header.timestamp_ms
                    &&& accepted.transactions@ == block.transactions@
                },
            }
        },
{
    let root = transaction_root(&block.transactions);
    assert(root.bytes() == foreign::trie_root(encoded(block.transactions@)));
    if let Err(error) = compare_block(header, block.hash, block.header_agrees, root) {
        return Err(error);
    }
    Ok(
        FinalizedBlock {
            cursor: BlockCursor { height: header.number, hash: header.hash },
            timestamp_ms: header.timestamp_ms,
            transactions: block.transactions,
        },
    )
}

/// Whether the header that was read for the checkpoint is the configured one.
pub fn check_checkpoint(sealed: BlockCursor, checkpoint: BlockCursor) -> (r: Result<(), HistoryError>)
    ensures
        r is Ok <==> sealed == checkpoint,
        r matches Err(error) ==> error.0@
            == "shadow checkpoint header disagrees with the configured checkpoint"@,
{
    if sealed.hash == checkpoint.hash && sealed.height == checkpoint.height {
        Ok(())
    } else {
        Err(HistoryError("shadow checkpoint header disagrees with the configured checkpoint"))
    }
}

// The shadow chain's schedule.

/// How the finalized headers of a chain are authenticated: after which block, by whose identity,
/// and with epochs of which length.
#[derive(Clone, Copy, Debug, PartialEq, Eq)]
pub struct StreamConfig<N> {
    pub start_after: B256,
    pub network_identity: Option<N>,
    pub epoch_length: u64,
}

/// The checkpoint is the last height that a chain can have.
#[derive(Clone, Copy, Debug, PartialEq, Eq, Structural)]
pub struct EpochOverflow;

/// The shadow chain's epochs are one block longer than the height of the checkpoint, which makes
/// it the boundary of the first one. Finality is authenticated from that pinned history with the
/// private identity, not with the source chain's schedule or committee.
pub fn shadow_config<N>(start_after: B256, checkpoint_height: u64, identity: N) -> (r: Result<
    StreamConfig<N>,
    EpochOverflow,
>)
    ensures
        r is Ok <==> checkpoint_height < u64::MAX,
        r matches Ok(config) ==> config == (StreamConfig {
            start_after,
            network_identity: Some(identity),
            epoch_length: (checkpoint_height + 1) as u64,
        }),
{
    match checkpoint_height.checked_add(1) {
        Some(epoch_length) => Ok(
            StreamConfig { start_after, network_identity: Some(identity), epoch_length },
        ),
        None => Err(EpochOverflow),
    }
}

// Connections.

/// Why a bearer token was refused.
#[derive(Clone, Copy, Debug, PartialEq, Eq, Structural)]
pub enum BearerError {
    Empty,
    Invalid,
}

/// The authorization header for a bearer token: none for an empty token or one with a control
/// character.
pub fn bearer_header(token: &str) -> (r: Result<String, BearerError>)
    ensures
        token@.len() == 0 <==> r == Err::<String, BearerError>(BearerError::Empty),
        r == Err::<String, BearerError>(BearerError::Invalid) <==> token@.len() > 0 && exists|i: int|
            0 <= i < token@.len() && !foreign::header_char(#[trigger] token@[i]),
        r matches Ok(value) ==> value@ == "Bearer "@ + token@,
{
    if token.unicode_len() == 0 {
        return Err(BearerError::Empty);
    }
    let mut value = String::from_str("Bearer ");
    value.append(token);
    proof {
        reveal_strlit("Bearer ");
        let lead = "Bearer "@;
        assert(forall|i: int| 0 <= i < lead.len() ==> foreign::header_char(#[trigger] lead[i]));
        assert forall|i: int| 0 <= i < token@.len() implies token@[i] == #[trigger] value@[i + 7] by {}
        if exists|i: int| 0 <= i < token@.len() && !foreign::header_char(#[trigger] token@[i]) {
            let i = choose|i: int| 0 <= i < token@.len() && !foreign::header_char(#[trigger] token@[i]);
            assert(!foreign::header_char(value@[i + 7]));
        } else {
            assert forall|i: int| 0 <= i < value@.len() implies foreign::header_char(#[trigger] value@[i]) by {
                if i < 7 {
                    assert(value@[i] == lead[i]);
                } else {
                    assert(value@[i] == token@[i - 7]);
                }
            }
        }
    }
    if foreign::valid_header_value(value.as_str()) {
        Ok(value)
    } else {
        Err(BearerError::Invalid)
    }
}

} // verus!
