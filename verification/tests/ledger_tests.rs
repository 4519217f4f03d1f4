use carbonsol::engine::Engine;
use carbonsol::records::EngineError;
use carbonsol::records::VcuMetadata;

const CST: u64 = 1;
const VCU: u64 = 2;
const SOL: u64 = 3;

fn meta() -> VcuMetadata {
    VcuMetadata {
        project_id: [7u8; 32],
        verification_standard: [2u8; 32],
        verification_timestamp: 5,
        location: [b'D', b'E'],
        project_type: 1,
        vintage_year: 2020,
    }
}

#[test]
fn initialize_credits_authority() {
    let mut e = Engine::new(CST, VCU, SOL);
    assert_eq!(e.initialize_token(CST, 10_000, 6, 100, None, None), Ok(()));
    assert_eq!(e.balance_of(CST, 100), 10_000);
    assert_eq!(e.total_supply_of(CST), Some(10_000));
    assert_eq!(e.total_supply_of(VCU), None);
}

#[test]
fn duplicate_initialization_is_rejected() {
    let mut e = Engine::new(CST, VCU, SOL);
    assert_eq!(e.initialize_token(CST, 10_000, 6, 100, None, None), Ok(()));
    assert_eq!(
        e.initialize_token(CST, 5, 0, 200, None, None),
        Err(EngineError::DuplicateInitialization)
    );
    // nothing changed
    assert_eq!(e.total_supply_of(CST), Some(10_000));
    assert_eq!(e.balance_of(CST, 200), 0);
}

#[test]
fn mint_requires_authority_and_nonzero_amount() {
    let mut e = Engine::new(CST, VCU, SOL);
    assert_eq!(e.initialize_token(CST, 1_000, 6, 100, None, None), Ok(()));
    assert_eq!(e.mint(CST, 0, 200, 100), Err(EngineError::ValidationError));
    assert_eq!(e.mint(CST, 50, 200, 999), Err(EngineError::AuthorizationError));
    assert_eq!(e.mint(VCU, 50, 200, 100), Err(EngineError::StateError));
    assert_eq!(e.mint(CST, 50, 200, 100), Ok(()));
    assert_eq!(e.balance_of(CST, 200), 50);
    assert_eq!(e.total_supply_of(CST), Some(1_050));
}

#[test]
fn mint_rejects_supply_overflow() {
    let mut e = Engine::new(CST, VCU, SOL);
    assert_eq!(e.initialize_token(CST, u64::MAX - 10, 0, 100, None, None), Ok(()));
    assert_eq!(e.mint(CST, 11, 100, 100), Err(EngineError::ValidationError));
    assert_eq!(e.mint(CST, 10, 100, 100), Ok(()));
    assert_eq!(e.total_supply_of(CST), Some(u64::MAX));
}

#[test]
fn burn_decrements_balance_and_supply() {
    let mut e = Engine::new(CST, VCU, SOL);
    assert_eq!(e.initialize_token(CST, 1_000, 6, 100, None, None), Ok(()));
    assert_eq!(e.burn(CST, 300, 100, 100), Ok(()));
    assert_eq!(e.balance_of(CST, 100), 700);
    assert_eq!(e.total_supply_of(CST), Some(700));
    // insufficient balance is reported before the signature check
    assert_eq!(e.burn(CST, 701, 100, 100), Err(EngineError::ResourceError));
    // a stranger cannot burn someone else's balance
    assert_eq!(e.burn(CST, 1, 100, 999), Err(EngineError::AuthorizationError));
    assert_eq!(e.total_supply_of(CST), Some(700));
}

#[test]
fn transfer_moves_exact_amounts() {
    let mut e = Engine::new(CST, VCU, SOL);
    assert_eq!(e.initialize_token(CST, 1_000, 6, 100, None, None), Ok(()));
    assert_eq!(e.transfer(CST, 400, 100, 201, 100), Ok(()));
    assert_eq!(e.balance_of(CST, 100), 600);
    assert_eq!(e.balance_of(CST, 201), 400);
    assert_eq!(e.transfer(CST, 0, 100, 201, 100), Err(EngineError::ValidationError));
    assert_eq!(e.transfer(CST, 601, 100, 201, 100), Err(EngineError::ResourceError));
    assert_eq!(e.transfer(CST, 10, 100, 201, 999), Err(EngineError::AuthorizationError));
    // supply is conserved across transfers
    assert_eq!(e.total_supply_of(CST), Some(1_000));
    assert_eq!(e.balance_of(CST, 100) + e.balance_of(CST, 201), 1_000);
}

#[test]
fn transfer_to_self_changes_nothing() {
    let mut e = Engine::new(CST, VCU, SOL);
    assert_eq!(e.initialize_token(CST, 1_000, 6, 100, None, None), Ok(()));
    assert_eq!(e.transfer(CST, 250, 100, 100, 100), Ok(()));
    assert_eq!(e.balance_of(CST, 100), 1_000);
}

#[test]
fn retire_burns_and_records_offset() {
    // a VCU holder with balance 50 retires everything; the supply drops
    // and one retirement record appears; a further retirement fails with
    // no state change
    let mut e = Engine::new(CST, VCU, SOL);
    assert_eq!(e.initialize_token(VCU, 500, 0, 100, None, Some(meta())), Ok(()));
    assert_eq!(e.transfer(VCU, 50, 100, 202, 100), Ok(()));
    assert_eq!(e.retire(VCU, 50, 202, 202, 77), Ok(()));
    assert_eq!(e.balance_of(VCU, 202), 0);
    assert_eq!(e.total_supply_of(VCU), Some(450));
    assert_eq!(e.retirement_count(), 1);
    let rec = e.retirement_at(0);
    assert_eq!(rec.project_id, [7u8; 32]);
    assert_eq!(rec.retiree, 202);
    assert_eq!(rec.amount, 50);
    assert_eq!(rec.timestamp, 77);
    // a second retirement finds no balance and changes nothing
    assert_eq!(e.retire(VCU, 1, 202, 202, 78), Err(EngineError::ResourceError));
    assert_eq!(e.balance_of(VCU, 202), 0);
    assert_eq!(e.total_supply_of(VCU), Some(450));
    assert_eq!(e.retirement_count(), 1);
}

#[test]
fn retire_needs_metadata_and_nonzero_amount() {
    let mut e = Engine::new(CST, VCU, SOL);
    assert_eq!(e.initialize_token(CST, 500, 6, 100, None, None), Ok(()));
    assert_eq!(e.retire(CST, 10, 100, 100, 1), Err(EngineError::ValidationError));
    assert_eq!(e.initialize_token(VCU, 500, 0, 100, None, Some(meta())), Ok(()));
    assert_eq!(e.retire(VCU, 0, 100, 100, 1), Err(EngineError::ValidationError));
    assert_eq!(e.retire(VCU, 10, 100, 999, 1), Err(EngineError::AuthorizationError));
    assert_eq!(e.retirement_count(), 0);
}

#[test]
fn retirement_query_filters_by_project() {
    let mut e = Engine::new(CST, VCU, SOL);
    let mut other = meta();
    other.project_id = [9u8; 32];
    assert_eq!(e.initialize_token(VCU, 500, 0, 100, None, Some(meta())), Ok(()));
    assert_eq!(e.retire(VCU, 5, 100, 100, 10), Ok(()));
    assert_eq!(e.update_metadata(VCU, other, 100), Ok(()));
    assert_eq!(e.retire(VCU, 7, 100, 100, 11), Ok(()));
    assert_eq!(e.retire(VCU, 3, 100, 100, 12), Ok(()));
    let first = e.retirements_for_project(&[7u8; 32]);
    assert_eq!(first.len(), 1);
    assert_eq!(first[0].amount, 5);
    let second = e.retirements_for_project(&[9u8; 32]);
    assert_eq!(second.len(), 2);
    assert_eq!(second[0].amount, 7);
    assert_eq!(second[1].amount, 3);
    assert!(second[0].timestamp <= second[1].timestamp);
    assert_eq!(e.retirements_for_project(&[1u8; 32]).len(), 0);
}

#[test]
fn update_metadata_is_gated() {
    let mut e = Engine::new(CST, VCU, SOL);
    assert_eq!(e.initialize_token(VCU, 500, 0, 100, None, Some(meta())), Ok(()));
    assert_eq!(e.initialize_token(CST, 500, 6, 100, None, None), Ok(()));
    let mut m2 = meta();
    m2.vintage_year = 2021;
    assert_eq!(e.update_metadata(VCU, m2, 999), Err(EngineError::AuthorizationError));
    assert_eq!(e.update_metadata(CST, m2, 100), Err(EngineError::ValidationError));
    assert_eq!(e.update_metadata(SOL, m2, 100), Err(EngineError::StateError));
    assert_eq!(e.update_metadata(VCU, m2, 100), Ok(()));
}
