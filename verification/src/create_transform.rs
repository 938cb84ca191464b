//! The creation protocol: bind the caller-supplied resource handles to
//! roles, move custody of every named asset account to the derived
//! custodian, and commit the Transform record exactly once.
//!
//! The custody reassignments themselves are performed by the surrounding
//! execution environment as one atomic unit; this module decides the whole
//! outcome of an invocation as a function of the stored record bytes and of
//! the current authority of each bound asset account, and never returns a
//! partly applied result.

use vstd::prelude::*;

use crate::codec::{decode, encode, lemma_round_trip, spec_decode, spec_encode};
use crate::error::TransformError;
use crate::state::{
    addrs_view, copy_bytes, copy_tokens, entries_wf, tokens_view, Address, Token, Transform,
    TransformMetadata, TransformV,
};

verus! {

/// The fixed seed from which the registry's custodian identity is derived.
pub open spec fn seed_spec() -> Seq<u8> {
    seq![116u8, 111u8, 107u8, 101u8, 110u8, 105u8, 116u8, 105u8, 115u8]
}

/// The seed bytes, spelling "tokenitis".
pub fn registry_seed() -> (v: Vec<u8>)
    ensures
        v@ == seed_spec(),
{
    let v: Vec<u8> = vec![116u8, 111u8, 107u8, 101u8, 110u8, 105u8, 116u8, 105u8, 115u8];
    proof {
        assert(v@ =~= seed_spec());
    }
    v
}

/// The custodian address, if any, that program-address derivation yields for
/// a seed and a registry identity; it depends on its arguments alone.
pub uninterp spec fn custodian_lookup(seed: Seq<u8>, registry: Seq<u8>) -> Option<Seq<u8>>;

/// Relies on solana_program's `Pubkey::try_find_program_address`: the
/// derived program address is a pure function of the seeds and the registry
/// identity, and is itself 32 bytes long when the search succeeds.
#[verifier::external_body]
fn find_custodian(seed: &Vec<u8>, registry: &Address) -> (r: Option<Address>)
    requires
        registry@.len() == 32,
    ensures
        match r {
            Some(a) => custodian_lookup(seed@, registry@) == Some(a@) && a@.len() == 32,
            None => custodian_lookup(seed@, registry@) is None,
        },
{
    let arr: [u8; 32] = registry.bytes.as_slice().try_into().unwrap();
    let registry_key = solana_program::pubkey::Pubkey::new_from_array(arr);
    let seeds: [&[u8]; 1] = [seed.as_slice()];
    match solana_program::pubkey::Pubkey::try_find_program_address(&seeds, &registry_key) {
        Some((address, _bump)) => Some(Address { bytes: address.to_bytes().to_vec() }),
        None => None,
    }
}

/// Derives the registry's custodian identity from the fixed seed.
pub fn derive_custodian(registry: &Address) -> (r: Option<Address>)
    requires
        registry.wf(),
    ensures
        match r {
            Some(a) => custodian_lookup(seed_spec(), registry@) == Some(a@) && a.wf(),
            None => custodian_lookup(seed_spec(), registry@) is None,
        },
{
    let seed = registry_seed();
    find_custodian(&seed, registry)
}

/// The caller-declared recipe of a creation request.
#[derive(Clone, Debug, PartialEq, Eq)]
pub struct CreateTransformArgs {
    pub metadata: TransformMetadata,
    pub inputs: Vec<Token>,
    pub outputs: Vec<Token>,
}

impl CreateTransformArgs {
    /// Validity of a declared recipe: both mappings strictly sorted with
    /// 32-byte addresses, and every part short enough for its length prefix.
    pub open spec fn wf(self) -> bool {
        &&& entries_wf(tokens_view(self.inputs@))
        &&& entries_wf(tokens_view(self.outputs@))
        &&& self.metadata@.len() < 0x1_0000_0000
        &&& self.inputs@.len() < 0x1_0000_0000
        &&& self.outputs@.len() < 0x1_0000_0000
    }
}

/// The resource handles of a creation request, bound to their roles.
#[derive(Debug)]
pub struct CreateTransformAccounts {
    pub token_program: Address,
    pub state: Address,
    pub initializer: Address,
    pub token_accounts: Vec<Address>,
}

/// A fully bound creation request.
#[derive(Debug)]
pub struct CreateTransform {
    pub program_id: Address,
    pub accounts: CreateTransformAccounts,
    pub args: CreateTransformArgs,
}

/// What a successful creation hands back: the new record bytes for the
/// stored location, and the new authority of each bound asset account.
#[derive(Debug)]
pub struct CreateOutcome {
    pub stored: Vec<u8>,
    pub authorities: Vec<Address>,
}

/// Values of a creation result.
pub open spec fn outcome_view(r: Result<CreateOutcome, TransformError>) -> Result<
    (Seq<u8>, Seq<Seq<u8>>),
    TransformError,
> {
    match r {
        Ok(o) => Ok((o.stored@, addrs_view(o.authorities@))),
        Err(e) => Err(e),
    }
}

impl CreateTransform {
    pub open spec fn wf(self) -> bool {
        &&& self.program_id@.len() == 32
        &&& self.accounts.initializer@.len() == 32
        &&& self.args.wf()
    }

    /// Binds the handle list to roles: the asset-custody entry point, the
    /// record's storage location, the initializer, then exactly
    /// `|inputs| + |outputs|` asset accounts, inputs first. A list of any
    /// other length is rejected before anything else happens; binding
    /// performs no custody action.
    pub fn new(program_id: Address, accounts: Vec<Address>, args: CreateTransformArgs) -> (r:
        Result<CreateTransform, TransformError>)
        ensures
            r is Ok <==> accounts@.len() == args.inputs@.len() + args.outputs@.len() + 3,
            r matches Ok(ct) ==> {
                &&& ct.program_id == program_id
                &&& ct.args == args
                &&& ct.accounts.token_program == accounts@[0]
                &&& ct.accounts.state == accounts@[1]
                &&& ct.accounts.initializer == accounts@[2]
                &&& ct.accounts.token_accounts@ == accounts@.skip(3)
            },
            r matches Err(e) ==> e == TransformError::StructuralError,
    {
        if accounts.len() < 3 {
            return Err(TransformError::StructuralError);
        }
        let rest = accounts.len() - 3;
        if rest < args.inputs.len() || rest - args.inputs.len() != args.outputs.len() {
            return Err(TransformError::StructuralError);
        }
        let mut accs = accounts;
        let token_program = accs.remove(0);
        let state = accs.remove(0);
        let initializer = accs.remove(0);
        proof {
            assert(accs@ =~= accounts@.skip(3));
        }
        Ok(
            CreateTransform {
                program_id,
                accounts: CreateTransformAccounts {
                    token_program,
                    state,
                    initializer,
                    token_accounts: accs,
                },
                args,
            },
        )
    }

    /// Binding in `new` is the whole validation of a creation request.
    pub fn validate(&self) -> (r: Result<(), TransformError>)
        ensures
            r is Ok,
    {
        Ok(())
    }

    /// The record a successful creation commits: initialized, with exactly
    /// the declared metadata and mappings.
    pub open spec fn committed_record(self) -> TransformV {
        TransformV {
            initialized: true,
            name: self.args.metadata@,
            inputs: tokens_view(self.args.inputs@),
            outputs: tokens_view(self.args.outputs@),
        }
    }

    /// Outcome of the commit step on the stored record bytes.
    pub open spec fn commit_outcome(self, stored: Seq<u8>) -> Result<Seq<u8>, TransformError> {
        match spec_decode(stored) {
            None => Err(TransformError::SerializationError),
            Some(rec) => if rec.initialized {
                Err(TransformError::AlreadyInitialized)
            } else {
                Ok(spec_encode(self.committed_record()))
            },
        }
    }

    /// Commit step: reads the stored record; a record that does not decode
    /// or is already initialized aborts the invocation, otherwise the full
    /// new record replaces the prior contents.
    pub fn commit(&self, stored: &Vec<u8>) -> (r: Result<Vec<u8>, TransformError>)
        ensures
            match r {
                Ok(v) => self.commit_outcome(stored@) == Ok::<Seq<u8>, TransformError>(v@),
                Err(e) => self.commit_outcome(stored@) == Err::<Seq<u8>, TransformError>(e),
            },
    {
        let rec = match decode(stored) {
            Err(e) => {
                return Err(e);
            },
            Ok(rec) => rec,
        };
        if rec.initialized {
            return Err(TransformError::AlreadyInitialized);
        }
        let fresh = Transform {
            initialized: true,
            metadata: TransformMetadata { name: copy_bytes(&self.args.metadata.name) },
            inputs: copy_tokens(&self.args.inputs),
            outputs: copy_tokens(&self.args.outputs),
        };
        proof {
            assert(fresh@ =~= self.committed_record());
        }
        Ok(encode(&fresh))
    }

    /// The whole outcome of one creation invocation, as a function of the
    /// stored record bytes and of the current authority of each bound asset
    /// account. An invocation that fails at any step returns the error
    /// alone: nothing of the stored record or of the authorities changes.
    pub open spec fn create_outcome(self, stored: Seq<u8>, authorities: Seq<Seq<u8>>) -> Result<
        (Seq<u8>, Seq<Seq<u8>>),
        TransformError,
    > {
        match spec_decode(stored) {
            None => Err(TransformError::SerializationError),
            Some(rec) => if rec.initialized {
                Err(TransformError::AlreadyInitialized)
            } else {
                match custodian_lookup(seed_spec(), self.program_id@) {
                    None => Err(TransformError::CustodianUnavailable),
                    Some(cust) => if forall|i: int|
                        0 <= i < authorities.len() ==> authorities[i]
                            == self.accounts.initializer@ {
                        Ok(
                            (
                                spec_encode(self.committed_record()),
                                Seq::new(authorities.len(), |i: int| cust),
                            ),
                        )
                    } else {
                        Err(TransformError::CustodyTransferFailed)
                    },
                }
            },
        }
    }

    /// Runs one creation invocation against the stored record bytes and the
    /// current authorities of the bound asset accounts (one per account, in
    /// binding order). On success the record is committed and every asset
    /// account's authority is the derived custodian; on any failure the
    /// inputs are returned untouched, as the error alone.
    #[verifier::loop_isolation(false)]
    pub fn execute(&self, stored: &Vec<u8>, authorities: &Vec<Address>) -> (r: Result<
        CreateOutcome,
        TransformError,
    >)
        requires
            self.program_id@.len() == 32,
            authorities@.len() == self.accounts.token_accounts@.len(),
        ensures
            outcome_view(r) == self.create_outcome(stored@, addrs_view(authorities@)),
    {
        let committed = match self.commit(stored) {
            Err(e) => {
                return Err(e);
            },
            Ok(v) => v,
        };
        let custodian = match derive_custodian(&self.program_id) {
            None => {
                return Err(TransformError::CustodianUnavailable);
            },
            Some(c) => c,
        };
        let mut i: usize = 0;
        while i < authorities.len()
            invariant
                i <= authorities@.len(),
                forall|j: int|
                    0 <= j < i ==> addrs_view(authorities@)[j] == self.accounts.initializer@,
            decreases authorities@.len() - i,
        {
            if !authorities[i].eq_bytes(&self.accounts.initializer) {
                proof {
                    assert(addrs_view(authorities@)[i as int] != self.accounts.initializer@);
                }
                return Err(TransformError::CustodyTransferFailed);
            }
            i += 1;
        }
        let n = authorities.len();
        let mut new_auths: Vec<Address> = Vec::new();
        let mut k: usize = 0;
        while k < n
            invariant
                k <= n,
                new_auths@.len() == k,
                forall|j: int| 0 <= j < k ==> (#[trigger] new_auths@[j])@ == custodian@,
            decreases n - k,
        {
            new_auths.push(Address { bytes: copy_bytes(&custodian.bytes) });
            k += 1;
        }
        proof {
            assert(addrs_view(new_auths@) =~= Seq::new(
                addrs_view(authorities@).len(),
                |j: int| custodian@,
            ));
        }
        Ok(CreateOutcome { stored: committed, authorities: new_auths })
    }
}

/// Atomicity of a creation: the outcome is either a full commit — the new
/// stored bytes decode to exactly the declared recipe, initialized, and
/// every bound asset account's authority is the derived custodian — or an
/// error alone. The transition returns nothing else, so a failed invocation
/// leaves the stored record and the authorities exactly as the caller
/// supplied them.
pub proof fn lemma_create_atomic(ct: CreateTransform, stored: Seq<u8>, authorities: Seq<Seq<u8>>)
    requires
        ct.wf(),
    ensures
        match ct.create_outcome(stored, authorities) {
            Ok(o) => {
                &&& spec_decode(o.0) == Some(ct.committed_record())
                &&& ct.committed_record().initialized
                &&& ct.committed_record().name == ct.args.metadata@
                &&& ct.committed_record().inputs == tokens_view(ct.args.inputs@)
                &&& ct.committed_record().outputs == tokens_view(ct.args.outputs@)
                &&& o.1.len() == authorities.len()
                &&& forall|i: int|
                    0 <= i < o.1.len() ==> o.1[i] == custodian_lookup(
                        seed_spec(),
                        ct.program_id@,
                    )->Some_0
            },
            Err(_) => true,
        },
{
    if ct.create_outcome(stored, authorities) is Ok {
        lemma_round_trip(ct.committed_record());
    }
}

/// Single commit: once a creation has committed a record, every later
/// creation aimed at the same stored location fails with
/// `AlreadyInitialized`, whatever its own recipe and authorities are.
pub proof fn lemma_single_commit(
    first: CreateTransform,
    stored: Seq<u8>,
    auths1: Seq<Seq<u8>>,
    second: CreateTransform,
    auths2: Seq<Seq<u8>>,
)
    requires
        first.wf(),
        first.create_outcome(stored, auths1) is Ok,
    ensures
        second.create_outcome(first.create_outcome(stored, auths1)->Ok_0.0, auths2) == Err::<
            (Seq<u8>, Seq<Seq<u8>>),
            TransformError,
        >(TransformError::AlreadyInitialized),
{
    lemma_round_trip(first.committed_record());
}

} // verus!
