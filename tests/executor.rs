use xcm_executor::asset::Asset;
use xcm_executor::codec::decode_program;
use xcm_executor::config::{weigh_program, AliasPair, BarrierRule, Config, FeeRate, Route, TrustedPair};
use xcm_executor::send::validate_send;
use xcm_executor::executor::{execute, State};
use xcm_executor::location::{Junction, Location};
use xcm_executor::program::{Instruction, OriginKind, Outcome, Program, XcmError};
use xcm_executor::weight::Weight;

const DOT: u64 = 1;

fn sibling() -> Location {
    Location::parachain(1, 2000)
}

fn beneficiary() -> Location {
    Location::account(0, 7)
}

fn treasury() -> Location {
    Location::account(0, 99)
}

fn config(barriers: Vec<BarrierRule>) -> Config {
    Config {
        version: 4,
        barriers,
        reserves: vec![TrustedPair { id: DOT, location: Location::new(1, vec![]) }],
        teleporters: vec![TrustedPair { id: DOT, location: sibling() }],
        base_weight: Weight::from_parts(10, 1),
        aliasers: vec![AliasPair { origin: sibling(), target: Location::parachain(1, 2500) }],
        superusers: vec![Location::new(1, vec![])],
        waived_origins: vec![Location::new(1, vec![])],
        fee_rates: vec![FeeRate { id: DOT, per_ref_time: 1 }],
        fee_destination: Some(treasury()),
        max_assets_in_holding: 4,
        routes: vec![Route { destination: Location::parachain(1, 4000), fee: Asset { id: DOT, amount: 3 } }],
        max_call_len: 64,
        call_weight_per_byte: 1,
    }
}

fn funded_state(who: &Location, amount: u128) -> State {
    let mut s = State::new();
    assert!(s.endow(who, Asset { id: DOT, amount }));
    s
}

fn program(instructions: Vec<Instruction>) -> Program {
    Program::new(4, instructions)
}

fn limit() -> Weight {
    Weight::from_parts(1_000, 1_000)
}

#[test]
fn scenario_withdraw_buy_deposit() {
    let c = config(vec![BarrierRule::AllowPaidExecution]);
    let mut s = funded_state(&sibling(), 100);
    let p = program(vec![
        Instruction::WithdrawAsset(Asset { id: DOT, amount: 100 }),
        Instruction::BuyExecution {
            fees: Asset { id: DOT, amount: 50 },
            weight_limit: Weight::from_parts(50, 50),
        },
        Instruction::DepositAsset { id: DOT, beneficiary: beneficiary() },
    ]);
    let r = execute(&c, &mut s, &sibling(), &p, limit());
    assert_eq!(r, Outcome::Complete { used: Weight::from_parts(30, 3) });
    assert_eq!(s.balance(&beneficiary(), DOT), 50);
    assert_eq!(s.balance(&treasury(), DOT), 50);
    assert_eq!(s.balance(&sibling(), DOT), 0);
    assert_eq!(s.trap.entries.len(), 0);
    assert_eq!(s.total_issuance(DOT), 100);
}

#[test]
fn scenario_transact_too_small_halts() {
    let c = config(vec![BarrierRule::AllowUnpaidFrom(sibling())]);
    let mut s = funded_state(&sibling(), 100);
    let p = program(vec![
        Instruction::TransferAsset { asset: Asset { id: DOT, amount: 40 }, beneficiary: beneficiary() },
        Instruction::Transact { origin_kind: OriginKind::SovereignAccount, require_weight_at_most: Weight::from_parts(5, 0), call: vec![0u8; 10] },
        Instruction::TransferAsset { asset: Asset { id: DOT, amount: 60 }, beneficiary: treasury() },
    ]);
    let r = execute(&c, &mut s, &sibling(), &p, limit());
    assert_eq!(
        r,
        Outcome::Incomplete { used: Weight::from_parts(20, 2), error: XcmError::MaxWeightInvalid, index: 1 }
    );
    assert_eq!(s.balance(&beneficiary(), DOT), 40);
    assert_eq!(s.balance(&treasury(), DOT), 0);
    assert_eq!(s.balance(&sibling(), DOT), 60);
    assert_eq!(s.dispatched.len(), 0);
}

#[test]
fn transact_within_its_limit_dispatches() {
    let c = config(vec![BarrierRule::AllowUnpaidFrom(sibling())]);
    let mut s = State::new();
    let p = program(vec![Instruction::Transact {
        origin_kind: OriginKind::SovereignAccount,
        require_weight_at_most: Weight::from_parts(20, 0),
        call: vec![1u8; 10],
    }]);
    let r = execute(&c, &mut s, &sibling(), &p, limit());
    assert_eq!(r, Outcome::Complete { used: Weight::from_parts(20, 1) });
    assert_eq!(s.dispatched.len(), 1);
    assert_eq!(s.dispatched[0].call, vec![1u8; 10]);
    assert_eq!(s.dispatched[0].kind, OriginKind::SovereignAccount);
    assert!(s.dispatched[0].origin.same_as(&sibling()));
}

#[test]
fn transact_refused_by_call_filter() {
    let c = config(vec![BarrierRule::AllowUnpaidFrom(sibling())]);
    let mut s = State::new();
    let p = program(vec![Instruction::Transact {
        origin_kind: OriginKind::SovereignAccount,
        require_weight_at_most: Weight::from_parts(500, 0),
        call: vec![1u8; 65],
    }]);
    let r = execute(&c, &mut s, &sibling(), &p, limit());
    assert_eq!(r, Outcome::Incomplete { used: Weight::from_parts(10, 1), error: XcmError::NoPermission, index: 0 });
}

#[test]
fn scenario_untrusted_teleport_fails_closed() {
    let stranger = Location::parachain(1, 3000);
    let c = config(vec![BarrierRule::AllowUnpaidFrom(stranger.duplicate())]);
    let mut s = State::new();
    let p = program(vec![
        Instruction::ReceiveTeleportedAsset(Asset { id: DOT, amount: 500 }),
        Instruction::DepositAsset { id: DOT, beneficiary: beneficiary() },
    ]);
    let r = execute(&c, &mut s, &stranger, &p, limit());
    assert_eq!(
        r,
        Outcome::Incomplete {
            used: Weight::from_parts(10, 1),
            error: XcmError::UntrustedTeleportLocation,
            index: 0
        }
    );
    assert_eq!(s.total_issuance(DOT), 0);
    assert_eq!(s.balance(&beneficiary(), DOT), 0);
    assert_eq!(s.trap.entries.len(), 0);
}

#[test]
fn trusted_teleport_mints() {
    let c = config(vec![BarrierRule::AllowUnpaidFrom(sibling())]);
    let mut s = State::new();
    let p = program(vec![
        Instruction::ReceiveTeleportedAsset(Asset { id: DOT, amount: 500 }),
        Instruction::DepositAsset { id: DOT, beneficiary: beneficiary() },
    ]);
    let r = execute(&c, &mut s, &sibling(), &p, limit());
    assert_eq!(r, Outcome::Complete { used: Weight::from_parts(20, 2) });
    assert_eq!(s.total_issuance(DOT), 500);
    assert_eq!(s.balance(&beneficiary(), DOT), 500);
}

#[test]
fn untrusted_reserve_deposit_refused() {
    let c = config(vec![BarrierRule::AllowUnpaidFrom(sibling())]);
    let mut s = State::new();
    let p = program(vec![Instruction::ReserveAssetDeposited(Asset { id: DOT, amount: 5 })]);
    let r = execute(&c, &mut s, &sibling(), &p, limit());
    assert_eq!(
        r,
        Outcome::Incomplete { used: Weight::from_parts(10, 1), error: XcmError::UntrustedReserveLocation, index: 0 }
    );
}

#[test]
fn barrier_denial_changes_nothing() {
    let c = config(vec![BarrierRule::AllowPaidExecution]);
    let mut s = funded_state(&sibling(), 100);
    let p = program(vec![
        Instruction::WithdrawAsset(Asset { id: DOT, amount: 100 }),
        Instruction::DepositAsset { id: DOT, beneficiary: beneficiary() },
    ]);
    let r = execute(&c, &mut s, &sibling(), &p, limit());
    assert_eq!(r, Outcome::Error { error: XcmError::Barrier });
    assert_eq!(s.balance(&sibling(), DOT), 100);
    assert_eq!(s.balance(&beneficiary(), DOT), 0);
    assert_eq!(s.trap.entries.len(), 0);
}

#[test]
fn paid_barrier_needs_enough_weight_bought() {
    let c = config(vec![BarrierRule::AllowPaidExecution]);
    let mut s = funded_state(&sibling(), 100);
    let p = program(vec![
        Instruction::WithdrawAsset(Asset { id: DOT, amount: 100 }),
        Instruction::BuyExecution { fees: Asset { id: DOT, amount: 50 }, weight_limit: Weight::from_parts(29, 50) },
        Instruction::DepositAsset { id: DOT, beneficiary: beneficiary() },
    ]);
    let r = execute(&c, &mut s, &sibling(), &p, limit());
    assert_eq!(r, Outcome::Error { error: XcmError::Barrier });
}

#[test]
fn weight_limit_and_version_checked_first() {
    let c = config(vec![BarrierRule::AllowUnpaidFrom(sibling())]);
    let mut s = State::new();
    let p = program(vec![Instruction::ClearOrigin, Instruction::ClearOrigin]);
    let r = execute(&c, &mut s, &sibling(), &p, Weight::from_parts(19, 100));
    assert_eq!(r, Outcome::Error { error: XcmError::WeightLimitReached });
    let old = Program::new(3, vec![Instruction::ClearOrigin]);
    let r = execute(&c, &mut s, &sibling(), &old, limit());
    assert_eq!(r, Outcome::Error { error: XcmError::UnhandledXcmVersion });
    let huge = program(vec![Instruction::Transact {
        origin_kind: OriginKind::SovereignAccount,
        require_weight_at_most: Weight::from_parts(u64::MAX, 0),
        call: vec![],
    }]);
    let r = execute(&c, &mut s, &sibling(), &huge, limit());
    assert_eq!(r, Outcome::Error { error: XcmError::Overweight });
}

#[test]
fn weigher_bounds_program() {
    let c = config(vec![]);
    let mut p = program(vec![
        Instruction::ClearOrigin,
        Instruction::Transact { origin_kind: OriginKind::SovereignAccount, require_weight_at_most: Weight::from_parts(7, 3), call: vec![] },
    ]);
    p.appendix = vec![Instruction::ClearOrigin];
    p.error_handler = vec![Instruction::ClearOrigin];
    assert_eq!(weigh_program(&c, &p), Some(Weight::from_parts(47, 7)));
}

#[test]
fn leftover_holding_is_trapped_and_claimable() {
    let c = config(vec![BarrierRule::AllowUnpaidFrom(sibling())]);
    let mut s = funded_state(&sibling(), 100);
    let p = program(vec![Instruction::WithdrawAsset(Asset { id: DOT, amount: 30 })]);
    let r = execute(&c, &mut s, &sibling(), &p, limit());
    assert_eq!(r, Outcome::Complete { used: Weight::from_parts(10, 1) });
    assert_eq!(s.trap.entries.len(), 1);
    assert_eq!(s.trap.entries[0].assets, vec![Asset { id: DOT, amount: 30 }]);
    let wrong = program(vec![Instruction::ClaimAsset { assets: vec![Asset { id: DOT, amount: 31 }] }]);
    let r = execute(&c, &mut s, &sibling(), &wrong, limit());
    assert_eq!(r, Outcome::Incomplete { used: Weight::from_parts(10, 1), error: XcmError::UnknownClaim, index: 0 });
    assert_eq!(s.trap.entries.len(), 1);
    let claim = program(vec![
        Instruction::ClaimAsset { assets: vec![Asset { id: DOT, amount: 30 }] },
        Instruction::DepositAsset { id: DOT, beneficiary: beneficiary() },
    ]);
    let r = execute(&c, &mut s, &sibling(), &claim, limit());
    assert_eq!(r, Outcome::Complete { used: Weight::from_parts(20, 2) });
    assert_eq!(s.trap.entries.len(), 0);
    assert_eq!(s.balance(&beneficiary(), DOT), 30);
    let again = execute(&c, &mut s, &sibling(), &claim, limit());
    assert_eq!(again, Outcome::Incomplete { used: Weight::from_parts(10, 1), error: XcmError::UnknownClaim, index: 0 });
    assert_eq!(s.total_issuance(DOT), 100);
}

#[test]
fn error_handler_and_appendix_run() {
    let c = config(vec![BarrierRule::AllowUnpaidFrom(sibling())]);
    let mut s = funded_state(&sibling(), 100);
    let mut p = program(vec![
        Instruction::WithdrawAsset(Asset { id: DOT, amount: 40 }),
        Instruction::WithdrawAsset(Asset { id: DOT, amount: 100 }),
        Instruction::ClearOrigin,
    ]);
    p.error_handler = vec![Instruction::DepositAsset { id: DOT, beneficiary: beneficiary() }];
    p.appendix = vec![Instruction::TransferAsset { asset: Asset { id: DOT, amount: 10 }, beneficiary: treasury() }];
    let r = execute(&c, &mut s, &sibling(), &p, limit());
    assert_eq!(
        r,
        Outcome::Incomplete { used: Weight::from_parts(40, 4), error: XcmError::FailedToTransactAsset, index: 1 }
    );
    assert_eq!(s.balance(&beneficiary(), DOT), 40);
    assert_eq!(s.balance(&treasury(), DOT), 10);
    assert_eq!(s.balance(&sibling(), DOT), 50);
}

#[test]
fn cleared_origin_cannot_withdraw() {
    let c = config(vec![BarrierRule::AllowUnpaidFrom(sibling())]);
    let mut s = funded_state(&sibling(), 100);
    let p = program(vec![
        Instruction::ClearOrigin,
        Instruction::WithdrawAsset(Asset { id: DOT, amount: 1 }),
    ]);
    let r = execute(&c, &mut s, &sibling(), &p, limit());
    assert_eq!(r, Outcome::Incomplete { used: Weight::from_parts(20, 2), error: XcmError::BadOrigin, index: 1 });
}

#[test]
fn descended_origin_uses_its_own_account() {
    let c = config(vec![BarrierRule::AllowUnpaidFrom(sibling())]);
    let mut sub = sibling();
    sub.push_interior(Junction::AccountIndex64(5));
    let mut s = funded_state(&sub, 100);
    let p = program(vec![
        Instruction::DescendOrigin(Junction::AccountIndex64(5)),
        Instruction::TransferAsset { asset: Asset { id: DOT, amount: 25 }, beneficiary: beneficiary() },
    ]);
    let r = execute(&c, &mut s, &sibling(), &p, limit());
    assert_eq!(r, Outcome::Complete { used: Weight::from_parts(20, 2) });
    assert_eq!(s.balance(&sub, DOT), 75);
    assert_eq!(s.balance(&beneficiary(), DOT), 25);
}

#[test]
fn query_responses_match_or_drop() {
    let c = config(vec![BarrierRule::AllowUnpaidFrom(sibling())]);
    let mut s = State::new();
    s.expect_response(7);
    let p = program(vec![
        Instruction::QueryResponse { query_id: 8, response: 1 },
        Instruction::QueryResponse { query_id: 7, response: 2 },
        Instruction::QueryResponse { query_id: 7, response: 3 },
    ]);
    let r = execute(&c, &mut s, &sibling(), &p, limit());
    assert_eq!(r, Outcome::Complete { used: Weight::from_parts(30, 3) });
    assert_eq!(s.responses, vec![(7, 2)]);
    assert_eq!(s.pending_queries.len(), 0);
}

#[test]
fn fees_burnt_without_destination() {
    let mut c = config(vec![BarrierRule::AllowPaidExecution]);
    c.fee_destination = None;
    let mut s = funded_state(&sibling(), 100);
    let p = program(vec![
        Instruction::WithdrawAsset(Asset { id: DOT, amount: 100 }),
        Instruction::BuyExecution { fees: Asset { id: DOT, amount: 60 }, weight_limit: Weight::from_parts(40, 10) },
        Instruction::DepositAsset { id: DOT, beneficiary: beneficiary() },
    ]);
    let r = execute(&c, &mut s, &sibling(), &p, limit());
    assert_eq!(r, Outcome::Complete { used: Weight::from_parts(30, 3) });
    assert_eq!(s.balance(&beneficiary(), DOT), 60);
    assert_eq!(s.total_issuance(DOT), 60);
}

#[test]
fn buy_execution_errors() {
    let c = config(vec![BarrierRule::AllowUnpaidFrom(sibling())]);
    let mut s = funded_state(&sibling(), 100);
    let short = program(vec![
        Instruction::WithdrawAsset(Asset { id: DOT, amount: 10 }),
        Instruction::BuyExecution { fees: Asset { id: DOT, amount: 20 }, weight_limit: Weight::from_parts(5, 0) },
    ]);
    let r = execute(&c, &mut s, &sibling(), &short, limit());
    assert_eq!(r, Outcome::Incomplete { used: Weight::from_parts(20, 2), error: XcmError::NotHoldingFees, index: 1 });
    let dear = program(vec![
        Instruction::WithdrawAsset(Asset { id: DOT, amount: 10 }),
        Instruction::BuyExecution { fees: Asset { id: DOT, amount: 10 }, weight_limit: Weight::from_parts(11, 0) },
    ]);
    let r = execute(&c, &mut s, &sibling(), &dear, limit());
    assert_eq!(r, Outcome::Incomplete { used: Weight::from_parts(20, 2), error: XcmError::TooExpensive, index: 1 });
    assert_eq!(s.trap.entries.len(), 2);
    assert_eq!(s.total_issuance(DOT), 100);
}

#[test]
fn endow_refuses_issuance_overflow() {
    let mut s = State::new();
    assert!(s.endow(&sibling(), Asset { id: DOT, amount: u128::MAX }));
    assert!(!s.endow(&beneficiary(), Asset { id: DOT, amount: 1 }));
    assert_eq!(s.balance(&beneficiary(), DOT), 0);
}

#[test]
fn version_subscriptions() {
    let c = config(vec![BarrierRule::AllowUnpaidFrom(sibling())]);
    let mut s = State::new();
    let p = program(vec![Instruction::SubscribeVersion { query_id: 3 }, Instruction::SubscribeVersion { query_id: 4 }]);
    let r = execute(&c, &mut s, &sibling(), &p, limit());
    assert_eq!(r, Outcome::Complete { used: Weight::from_parts(20, 2) });
    assert_eq!(s.subscriptions.len(), 1);
    assert_eq!(s.subscriptions[0].query_id, 4);
    assert!(s.subscriptions[0].location.same_as(&sibling()));
    let p = program(vec![Instruction::UnsubscribeVersion]);
    let r = execute(&c, &mut s, &sibling(), &p, limit());
    assert_eq!(r, Outcome::Complete { used: Weight::from_parts(10, 1) });
    assert_eq!(s.subscriptions.len(), 0);
}

#[test]
fn alias_origin_needs_trust() {
    let c = config(vec![BarrierRule::AllowUnpaidFrom(sibling())]);
    let alias = Location::parachain(1, 2500);
    let mut s = funded_state(&alias, 10);
    let p = program(vec![
        Instruction::AliasOrigin(alias.duplicate()),
        Instruction::TransferAsset { asset: Asset { id: DOT, amount: 10 }, beneficiary: beneficiary() },
    ]);
    let r = execute(&c, &mut s, &sibling(), &p, limit());
    assert_eq!(r, Outcome::Complete { used: Weight::from_parts(20, 2) });
    assert_eq!(s.balance(&beneficiary(), DOT), 10);
    let bad = program(vec![Instruction::AliasOrigin(Location::parachain(1, 2600))]);
    let r = execute(&c, &mut s, &sibling(), &bad, limit());
    assert_eq!(r, Outcome::Incomplete { used: Weight::from_parts(10, 1), error: XcmError::NoPermission, index: 0 });
}

#[test]
fn waived_origin_pays_nothing() {
    let relay = Location::new(1, vec![]);
    let c = config(vec![BarrierRule::AllowPaidExecution]);
    let mut s = funded_state(&relay, 100);
    let p = program(vec![
        Instruction::WithdrawAsset(Asset { id: DOT, amount: 100 }),
        Instruction::BuyExecution { fees: Asset { id: DOT, amount: 50 }, weight_limit: Weight::from_parts(50, 50) },
        Instruction::DepositAsset { id: DOT, beneficiary: beneficiary() },
    ]);
    let r = execute(&c, &mut s, &relay, &p, limit());
    assert_eq!(r, Outcome::Complete { used: Weight::from_parts(30, 3) });
    assert_eq!(s.balance(&beneficiary(), DOT), 100);
    assert_eq!(s.balance(&treasury(), DOT), 0);
}

#[test]
fn transfer_reserve_asset_sends_and_pays_delivery() {
    let c = config(vec![BarrierRule::AllowUnpaidFrom(sibling())]);
    let dest = Location::parachain(1, 4000);
    let mut s = funded_state(&sibling(), 100);
    let p = program(vec![
        Instruction::WithdrawAsset(Asset { id: DOT, amount: 5 }),
        Instruction::TransferReserveAsset { asset: Asset { id: DOT, amount: 40 }, dest: dest.duplicate(), beneficiary: beneficiary() },
        Instruction::DepositAsset { id: DOT, beneficiary: sibling() },
    ]);
    let r = execute(&c, &mut s, &sibling(), &p, limit());
    assert_eq!(r, Outcome::Complete { used: Weight::from_parts(30, 3) });
    assert_eq!(s.balance(&dest, DOT), 40);
    assert_eq!(s.balance(&treasury(), DOT), 3);
    assert_eq!(s.balance(&sibling(), DOT), 57);
    assert_eq!(s.outbox.len(), 1);
    assert!(s.outbox[0].destination.same_as(&dest));
    assert_eq!(s.outbox[0].fee, Asset { id: DOT, amount: 3 });
    let sent = decode_program(&s.outbox[0].message, 4).unwrap();
    assert_eq!(sent.instructions.len(), 3);
    match &sent.instructions[0] {
        Instruction::ReserveAssetDeposited(a) => assert_eq!(*a, Asset { id: DOT, amount: 40 }),
        _ => panic!("wrong instruction"),
    }
}

#[test]
fn transfer_reserve_asset_errors() {
    let c = config(vec![BarrierRule::AllowUnpaidFrom(sibling())]);
    let mut s = funded_state(&sibling(), 100);
    let unroutable = program(vec![Instruction::TransferReserveAsset {
        asset: Asset { id: DOT, amount: 40 },
        dest: Location::parachain(1, 4001),
        beneficiary: beneficiary(),
    }]);
    let r = execute(&c, &mut s, &sibling(), &unroutable, limit());
    assert_eq!(r, Outcome::Incomplete { used: Weight::from_parts(10, 1), error: XcmError::Unroutable, index: 0 });
    let unpaid = program(vec![Instruction::TransferReserveAsset {
        asset: Asset { id: DOT, amount: 40 },
        dest: Location::parachain(1, 4000),
        beneficiary: beneficiary(),
    }]);
    let r = execute(&c, &mut s, &sibling(), &unpaid, limit());
    assert_eq!(r, Outcome::Incomplete { used: Weight::from_parts(10, 1), error: XcmError::NotHoldingFees, index: 0 });
    assert_eq!(s.balance(&sibling(), DOT), 100);
    assert_eq!(s.outbox.len(), 0);
}

#[test]
fn validate_send_has_no_effect_and_prices_route() {
    let c = config(vec![]);
    let msg = program(vec![Instruction::ClearOrigin]);
    let t = validate_send(&c, &Location::parachain(1, 4000), &msg).unwrap();
    assert_eq!(t.fee, Asset { id: DOT, amount: 3 });
    assert_eq!(t.message.len(), 1 + 8 + 1 + 8 + 8);
    assert_eq!(validate_send(&c, &sibling(), &msg).err(), Some(XcmError::Unroutable));
}

#[test]
fn holding_limit_refuses_new_classes() {
    let mut c = config(vec![BarrierRule::AllowUnpaidFrom(sibling())]);
    c.max_assets_in_holding = 1;
    let mut s = funded_state(&sibling(), 100);
    assert!(s.endow(&sibling(), Asset { id: 2, amount: 100 }));
    let p = program(vec![
        Instruction::WithdrawAsset(Asset { id: DOT, amount: 10 }),
        Instruction::WithdrawAsset(Asset { id: 2, amount: 10 }),
    ]);
    let r = execute(&c, &mut s, &sibling(), &p, limit());
    assert_eq!(r, Outcome::Incomplete { used: Weight::from_parts(20, 2), error: XcmError::HoldingWouldOverflow, index: 1 });
    assert_eq!(s.balance(&sibling(), 2), 100);
    assert_eq!(s.trap.entries.len(), 1);
    assert_eq!(s.trap.entries[0].assets, vec![Asset { id: DOT, amount: 10 }]);
}

#[test]
fn superuser_dispatch_needs_authority() {
    let relay = Location::new(1, vec![]);
    let c = config(vec![BarrierRule::AllowUnpaidFrom(sibling()), BarrierRule::AllowUnpaidFrom(relay.duplicate())]);
    let mut s = State::new();
    let p = program(vec![Instruction::Transact {
        origin_kind: OriginKind::Superuser,
        require_weight_at_most: Weight::from_parts(20, 0),
        call: vec![2u8; 3],
    }]);
    let r = execute(&c, &mut s, &sibling(), &p, limit());
    assert_eq!(r, Outcome::Incomplete { used: Weight::from_parts(10, 1), error: XcmError::BadOrigin, index: 0 });
    assert_eq!(s.dispatched.len(), 0);
    let r = execute(&c, &mut s, &relay, &p, limit());
    assert_eq!(r, Outcome::Complete { used: Weight::from_parts(13, 1) });
    assert_eq!(s.dispatched[0].kind, OriginKind::Superuser);
}

#[test]
fn appendix_reports_error() {
    let c = config(vec![BarrierRule::AllowUnpaidFrom(sibling())]);
    let dest = Location::parachain(1, 4000);
    let mut s = funded_state(&sibling(), 100);
    let mut p = program(vec![
        Instruction::WithdrawAsset(Asset { id: DOT, amount: 10 }),
        Instruction::TransferAsset { asset: Asset { id: DOT, amount: 1000 }, beneficiary: beneficiary() },
    ]);
    p.appendix = vec![Instruction::ReportError { query_id: 21, destination: dest.duplicate() }];
    let r = execute(&c, &mut s, &sibling(), &p, limit());
    assert_eq!(r, Outcome::Incomplete { used: Weight::from_parts(30, 3), error: XcmError::FailedToTransactAsset, index: 1 });
    assert_eq!(s.outbox.len(), 1);
    let sent = decode_program(&s.outbox[0].message, 4).unwrap();
    match &sent.instructions[0] {
        Instruction::QueryResponse { query_id, response } => {
            assert_eq!(*query_id, 21);
            assert_eq!(*response, 9);
        }
        _ => panic!("wrong instruction"),
    }
    assert_eq!(s.balance(&treasury(), DOT), 3);
    assert_eq!(s.trap.entries[0].assets, vec![Asset { id: DOT, amount: 7 }]);
}

#[test]
fn report_without_error_sends_zero_and_unroutable_appendix_is_ignored() {
    let c = config(vec![BarrierRule::AllowUnpaidFrom(sibling())]);
    let mut s = funded_state(&sibling(), 100);
    let mut p = program(vec![
        Instruction::WithdrawAsset(Asset { id: DOT, amount: 10 }),
        Instruction::ReportError { query_id: 1, destination: Location::parachain(1, 4000) },
    ]);
    p.appendix = vec![Instruction::ReportError { query_id: 2, destination: beneficiary() }];
    let r = execute(&c, &mut s, &sibling(), &p, limit());
    assert_eq!(r, Outcome::Complete { used: Weight::from_parts(30, 3) });
    assert_eq!(s.outbox.len(), 1);
    let sent = decode_program(&s.outbox[0].message, 4).unwrap();
    match &sent.instructions[0] {
        Instruction::QueryResponse { response, .. } => assert_eq!(*response, 0),
        _ => panic!("wrong instruction"),
    }
}

#[test]
fn conservation_on_a_mixed_run() {
    let c = config(vec![BarrierRule::AllowUnpaidFrom(sibling())]);
    let mut s = funded_state(&sibling(), 1000);
    let mut p = program(vec![
        Instruction::WithdrawAsset(Asset { id: DOT, amount: 300 }),
        Instruction::BuyExecution { fees: Asset { id: DOT, amount: 100 }, weight_limit: Weight::from_parts(60, 0) },
        Instruction::TransferAsset { asset: Asset { id: DOT, amount: 50 }, beneficiary: beneficiary() },
        Instruction::DepositAsset { id: DOT, beneficiary: beneficiary() },
        Instruction::WithdrawAsset(Asset { id: DOT, amount: 25 }),
    ]);
    p.appendix = vec![Instruction::WithdrawAsset(Asset { id: DOT, amount: 5000 })];
    let r = execute(&c, &mut s, &sibling(), &p, limit());
    assert_eq!(r, Outcome::Complete { used: Weight::from_parts(60, 6) });
    let trapped: u128 = s.trap.entries.iter().map(|t| t.assets.iter().map(|a| a.amount).sum::<u128>()).sum();
    let in_accounts = s.balance(&sibling(), DOT) + s.balance(&beneficiary(), DOT) + s.balance(&treasury(), DOT);
    assert_eq!(trapped, 25);
    assert_eq!(s.balance(&treasury(), DOT), 60);
    assert_eq!(s.balance(&beneficiary(), DOT), 290);
    assert_eq!(in_accounts + trapped, 1000);
    assert_eq!(s.total_issuance(DOT), 1000);
}

#[test]
fn metering_stays_within_weigher_bound() {
    let c = config(vec![BarrierRule::AllowUnpaidFrom(sibling())]);
    let mut s = State::new();
    let mut p = program(vec![
        Instruction::Transact {
            origin_kind: OriginKind::Native,
            require_weight_at_most: Weight::from_parts(100, 40),
            call: vec![7u8; 30],
        },
        Instruction::ClearOrigin,
    ]);
    p.error_handler = vec![Instruction::ClearOrigin];
    p.appendix = vec![Instruction::ClearOrigin];
    let bound = weigh_program(&c, &p).unwrap();
    assert_eq!(bound, Weight::from_parts(140, 44));
    let r = execute(&c, &mut s, &sibling(), &p, limit());
    assert_eq!(r, Outcome::Complete { used: Weight::from_parts(60, 3) });
    match r {
        Outcome::Complete { used } => assert!(used.all_lte(&bound)),
        _ => panic!("not complete"),
    }
}

#[test]
fn resubscribing_keeps_others_and_replaces_own() {
    let mut s = State::new();
    s.subscribe(&sibling(), 1);
    s.subscribe(&beneficiary(), 2);
    s.subscribe(&sibling(), 3);
    assert_eq!(s.subscriptions.len(), 2);
    assert!(s.subscriptions[0].location.same_as(&beneficiary()));
    assert_eq!(s.subscriptions[0].query_id, 2);
    assert!(s.subscriptions[1].location.same_as(&sibling()));
    assert_eq!(s.subscriptions[1].query_id, 3);
    s.unsubscribe(&sibling());
    assert_eq!(s.subscriptions.len(), 1);
    assert!(s.subscriptions[0].location.same_as(&beneficiary()));
}
