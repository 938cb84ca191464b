use solana_program::pubkey::Pubkey;
use tokenitis::codec::decode;
use tokenitis::{
    derive_custodian, Address, CreateTransform, CreateTransformArgs, Token, TransformError,
    TransformMetadata,
};

fn addr(b: u8) -> Address {
    Address { bytes: vec![b; 32] }
}

fn simple_args() -> CreateTransformArgs {
    CreateTransformArgs {
        metadata: TransformMetadata { name: b"swap".to_vec() },
        inputs: vec![Token { address: addr(10), amount: 10 }],
        outputs: vec![Token { address: addr(11), amount: 10 }],
    }
}

fn bind(program_id: u8, n_accounts: u8, args: CreateTransformArgs) -> Result<CreateTransform, TransformError> {
    let accounts: Vec<Address> = (1..=n_accounts).map(addr).collect();
    CreateTransform::new(addr(program_id), accounts, args)
}

fn expected_custodian(program_id: &Address) -> Vec<u8> {
    let key = Pubkey::new_from_array(program_id.bytes.clone().try_into().unwrap());
    let (pda, _bump) = Pubkey::find_program_address(&[b"tokenitis"], &key);
    pda.to_bytes().to_vec()
}

#[test]
fn scenario_fresh_create() {
    let ct = bind(7, 5, simple_args()).unwrap();
    assert_eq!(ct.accounts.token_program, addr(1));
    assert_eq!(ct.accounts.state, addr(2));
    assert_eq!(ct.accounts.initializer, addr(3));
    assert_eq!(ct.accounts.token_accounts, vec![addr(4), addr(5)]);
    assert!(ct.validate().is_ok());

    let stored = vec![0u8; 128];
    let authorities = vec![addr(3), addr(3)];
    let outcome = ct.execute(&stored, &authorities).unwrap();

    let record = decode(&outcome.stored).unwrap();
    assert!(record.initialized);
    assert_eq!(record.metadata.name, b"swap".to_vec());
    assert_eq!(record.inputs, vec![Token { address: addr(10), amount: 10 }]);
    assert_eq!(record.outputs, vec![Token { address: addr(11), amount: 10 }]);

    let custodian = expected_custodian(&addr(7));
    assert_eq!(outcome.authorities.len(), 2);
    for authority in &outcome.authorities {
        assert_eq!(authority.bytes, custodian);
    }
}

#[test]
fn scenario_second_create_rejected() {
    let ct = bind(7, 5, simple_args()).unwrap();
    let stored = vec![0u8; 128];
    let authorities = vec![addr(3), addr(3)];
    let outcome = ct.execute(&stored, &authorities).unwrap();

    let again = bind(7, 5, simple_args()).unwrap();
    let second = again.execute(&outcome.stored, &authorities);
    assert_eq!(second.unwrap_err(), TransformError::AlreadyInitialized);
}

#[test]
fn scenario_missing_asset_accounts() {
    let args = CreateTransformArgs {
        metadata: TransformMetadata { name: b"swap".to_vec() },
        inputs: vec![
            Token { address: addr(10), amount: 1 },
            Token { address: addr(11), amount: 2 },
        ],
        outputs: vec![Token { address: addr(12), amount: 3 }],
    };
    // three asset slots declared, but only two asset handles supplied
    let outcome = bind(7, 5, args);
    assert_eq!(outcome.unwrap_err(), TransformError::StructuralError);
}

#[test]
fn surplus_handles_rejected() {
    let outcome = bind(7, 6, simple_args());
    assert_eq!(outcome.unwrap_err(), TransformError::StructuralError);
}

#[test]
fn too_few_role_handles_rejected() {
    let outcome = bind(7, 2, simple_args());
    assert_eq!(outcome.unwrap_err(), TransformError::StructuralError);
}

#[test]
fn scenario_foreign_authority() {
    let args = CreateTransformArgs {
        metadata: TransformMetadata { name: b"swap".to_vec() },
        inputs: vec![
            Token { address: addr(10), amount: 1 },
            Token { address: addr(11), amount: 2 },
        ],
        outputs: vec![Token { address: addr(12), amount: 3 }],
    };
    let ct = bind(7, 6, args).unwrap();
    let stored = vec![0u8; 128];
    // the middle asset account is controlled by someone else
    let authorities = vec![addr(3), addr(9), addr(3)];
    let outcome = ct.execute(&stored, &authorities);
    assert_eq!(outcome.unwrap_err(), TransformError::CustodyTransferFailed);
    // the stored record is untouched and still uninitialized
    assert!(!decode(&stored).unwrap().initialized);
}

#[test]
fn execute_rejects_corrupt_record() {
    let ct = bind(7, 5, simple_args()).unwrap();
    let mut stored = vec![0u8; 128];
    stored[0] = 7;
    let authorities = vec![addr(3), addr(3)];
    let outcome = ct.execute(&stored, &authorities);
    assert_eq!(outcome.unwrap_err(), TransformError::SerializationError);
}

#[test]
fn commit_checks_initialization() {
    let ct = bind(7, 5, simple_args()).unwrap();
    let fresh = ct.commit(&vec![0u8; 64]).unwrap();
    assert!(decode(&fresh).unwrap().initialized);
    assert_eq!(ct.commit(&fresh).unwrap_err(), TransformError::AlreadyInitialized);
    assert_eq!(
        ct.commit(&vec![9u8; 3]).unwrap_err(),
        TransformError::SerializationError,
    );
}

#[test]
fn custodian_is_derived_not_echoed() {
    let registry = addr(7);
    let custodian = derive_custodian(&registry).unwrap();
    // deterministic: the same registry identity derives the same custodian
    assert_eq!(derive_custodian(&registry).unwrap(), custodian);
    // and it matches the program-address derivation done directly
    assert_eq!(custodian.bytes, expected_custodian(&registry));
    // the custodian is a fresh identity, not any input handed in
    assert_ne!(custodian.bytes, registry.bytes);
    assert_ne!(custodian.bytes, b"tokenitis".to_vec());
}

#[test]
fn empty_recipe_creates() {
    let args = CreateTransformArgs {
        metadata: TransformMetadata { name: Vec::new() },
        inputs: Vec::new(),
        outputs: Vec::new(),
    };
    let ct = bind(5, 3, args).unwrap();
    let stored = vec![0u8; 16];
    let outcome = ct.execute(&stored, &Vec::new()).unwrap();
    let record = decode(&outcome.stored).unwrap();
    assert!(record.initialized);
    assert!(record.inputs.is_empty());
    assert!(record.outputs.is_empty());
    assert!(outcome.authorities.is_empty());
}
