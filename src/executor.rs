//! The interpreter: admission, metering and the instruction loop, over the
//! ledger, the asset trap and the holding register.

use vstd::prelude::*;
use crate::asset::{
    amount_of, share, Asset, Holding, lemma_amount_of_bounded, lemma_amount_of_prefix,
    lemma_amount_of_push,
};
use crate::ledger::{Balance, Ledger, balance_of, ledger_sum, ledger_total};
use crate::config::{
    Config, barrier_allows, contains_alias, may_alias, contains_location, contains_pair, cost, cost_lte,
    add_cost, cost_of_weight, cost_sum, find_rate, fits, lemma_cost_sum_prefix, lemma_cost_sum_step,
    listed, program_cost, rate_of, should_execute, trusts, weigh_program,
};
use crate::location::{Location, LocationView};
use crate::program::{
    Instruction, InstructionView, OriginKind, Outcome, Program, ProgramView, XcmError, error_code,
    spec_error_code,
};
use crate::codec::program_enc;
use crate::program::views;
use crate::send::route_fee;
use crate::weight::{Weight, sat_mul, saturating_mul_u64};
use crate::location::Junction;
use crate::trap::{AssetTrap, Trapped, claim_matches, claimable, trap_total};
use crate::send::{SendTicket, validate_send};

verus! {

/// What crediting `a` to `target` adds to the balance of `w` in class `k`.
pub open spec fn cr(target: Option<LocationView>, w: LocationView, a: Asset, k: u64) -> nat {
    if target == Some(w) {
        share(a, k)
    } else {
        0
    }
}

/// The queues and logs of `s1` are those of `s0`.
pub open spec fn same_queues(s0: State, s1: State) -> bool {
    s1.pending_queries == s0.pending_queries && s1.responses == s0.responses && s1.dispatched
        == s0.dispatched && s1.subscriptions == s0.subscriptions && s1.outbox == s0.outbox
}

/// Holding went from `h0` to `h1` by adding `a` and removing `b`.
pub open spec fn holding_moved(h0: Seq<Asset>, h1: Seq<Asset>, a: Asset, b: Asset) -> bool {
    forall|k: u64| #[trigger] amount_of(h1, k) + share(b, k) == amount_of(h0, k) + share(a, k)
}

/// No asset: what adding or removing nothing is written with.
pub open spec fn nothing() -> Asset {
    Asset { id: 0, amount: 0 }
}

/// `fee` went from holding to the fee destination's account, or was burnt;
/// the trap is untouched.
pub open spec fn fee_paid(c: Config, s0: State, s1: State, fee: Asset) -> bool {
    s1.trap == s0.trap && match c.fee_destination {
        Some(d) => s1.issuance == s0.issuance && forall|w: LocationView, k: u64| #[trigger]
            balance_of(s1.ledger@, w, k) == balance_of(s0.ledger@, w, k) + cr(Some(d@), w, fee, k),
        None => s1.ledger == s0.ledger && forall|k: u64| #[trigger]
            amount_of(s1.issuance@, k) + share(fee, k) == amount_of(s0.issuance@, k),
    }
}

/// The price of `weight_limit` in the class of `fees`, if it has one that
/// fits in a `u128`.
pub open spec fn price_of(c: Config, fees: Asset, weight_limit: Weight) -> Option<u128> {
    match rate_of(c.fee_rates@, fees.id) {
        None => None,
        Some(rate) => if weight_limit.ref_time * rate <= u128::MAX {
            Some((weight_limit.ref_time * rate) as u128)
        } else {
            None
        },
    }
}

/// What the fee destination's account gains when `fee` is paid.
pub open spec fn fee_credit(c: Config, w: LocationView, fee: Asset, k: u64) -> nat {
    match c.fee_destination {
        Some(d) => cr(Some(d@), w, fee, k),
        None => 0,
    }
}

/// What is burnt of class `k` when `fee` is paid.
pub open spec fn fee_burnt(c: Config, fee: Asset, k: u64) -> nat {
    if c.fee_destination is None {
        share(fee, k)
    } else {
        0
    }
}

/// The message that hands `a` over to its new reserve for `beneficiary`.
pub open spec fn reserve_message(c: Config, a: Asset, beneficiary: LocationView) -> ProgramView {
    ProgramView {
        version: c.version,
        instructions: seq![
            InstructionView::ReserveAssetDeposited(a),
            InstructionView::ClearOrigin,
            InstructionView::DepositAsset { id: a.id, beneficiary },
        ],
        error_handler: Seq::empty(),
        appendix: Seq::empty(),
    }
}

/// The message that reports error code `code` as the answer to `query_id`.
pub open spec fn report_message(c: Config, query_id: u64, code: u64) -> ProgramView {
    ProgramView {
        version: c.version,
        instructions: seq![InstructionView::QueryResponse { query_id, response: code }],
        error_handler: Seq::empty(),
        appendix: Seq::empty(),
    }
}

/// `s1` is `s0` with one more message in the outbox: `pv`, encoded, for
/// `dest`, with delivery fee `fee`; the other queues are unchanged.
pub open spec fn delivered(s0: State, s1: State, dest: LocationView, fee: Asset, pv: ProgramView) -> bool {
    s1.pending_queries == s0.pending_queries && s1.responses == s0.responses && s1.dispatched
        == s0.dispatched && s1.subscriptions == s0.subscriptions && s1.outbox@.len()
        == s0.outbox@.len() + 1 && s1.outbox@.drop_last() == s0.outbox@
        && s1.outbox@.last().destination@ == dest && s1.outbox@.last().fee == fee && exists|p: Program|
        #[trigger] program_enc(p) == s1.outbox@.last().message@ && p@ == pv
}

/// A call dispatched by `Transact`: on whose behalf, with which authority.
#[derive(Debug)]
pub struct DispatchedCall {
    pub origin: Location,
    pub kind: OriginKind,
    pub call: Vec<u8>,
}

/// Whether `origin` may dispatch with the authority `kind`: superuser
/// authority only for the configured superusers, any other for all.
pub open spec fn may_dispatch(c: Config, origin: LocationView, kind: OriginKind) -> bool {
    kind != OriginKind::Superuser || listed(c.superusers@, origin)
}

/// Map an origin and a requested authority to a call origin; fails when the
/// origin lacks that authority.
pub fn convert_origin(c: &Config, origin: &Location, kind: OriginKind) -> (r: bool)
    ensures
        r == may_dispatch(*c, origin@, kind),
{
    match kind {
        OriginKind::Superuser => contains_location(&c.superusers, origin),
        _ => true,
    }
}

/// A standing request to be told of protocol version changes.
#[derive(Debug)]
pub struct Subscription {
    pub location: Location,
    pub query_id: u64,
}

/// Whether a subscription is of someone other than `who`.
pub open spec fn keeps(who: LocationView) -> spec_fn(Subscription) -> bool {
    |s: Subscription| s.location@ != who
}

/// Whether `who` has a subscription among `s`.
pub open spec fn subscribed(s: Seq<Subscription>, who: LocationView) -> bool {
    exists|k: int| 0 <= k < s.len() && (#[trigger] s[k]).location@ == who
}

/// Every unit of every class is accounted for: what was issued is in some
/// account, in the trap, or in holding.
pub open spec fn conserved(
    ledger: Seq<Balance>,
    trap: Seq<Trapped>,
    holding: Seq<Asset>,
    issuance: Seq<Asset>,
) -> bool {
    forall|c: u64| #[trigger]
        amount_of(issuance, c) == ledger_total(ledger, c) + trap_total(trap, c) + amount_of(
            holding,
            c,
        )
}

/// Everything that outlives one execution: account balances, trapped
/// assets, the total issued of each class, outstanding queries and the
/// answers received, the calls dispatched, version subscriptions, and the
/// messages handed over for sending.
#[derive(Debug)]
pub struct State {
    pub ledger: Ledger,
    pub trap: AssetTrap,
    /// Total issuance per class, one entry per class.
    pub issuance: Holding,
    pub pending_queries: Vec<u64>,
    pub responses: Vec<(u64, u64)>,
    pub dispatched: Vec<DispatchedCall>,
    /// Who is to be told of version changes, and under which query.
    pub subscriptions: Vec<Subscription>,
    /// Messages delivered for sending, oldest first.
    pub outbox: Vec<SendTicket>,
}

impl State {
    /// Consistent while `holding` is in flight.
    pub open spec fn running(&self, holding: Seq<Asset>) -> bool {
        self.ledger.wf() && self.issuance.wf() && conserved(
            self.ledger@,
            self.trap@,
            holding,
            self.issuance@,
        )
    }

    /// Consistent between executions: nothing in flight.
    pub open spec fn wf(&self) -> bool {
        self.running(Seq::empty())
    }

    pub fn new() -> (r: State)
        ensures
            r.wf(),
            r.ledger@.len() == 0,
            r.trap@.len() == 0,
            r.issuance@.len() == 0,
            r.pending_queries@.len() == 0,
            r.responses@.len() == 0,
            r.dispatched@.len() == 0,
            r.subscriptions@.len() == 0,
            r.outbox@.len() == 0,
    {
        State {
            ledger: Ledger::new(),
            trap: AssetTrap::new(),
            issuance: Holding::new(),
            pending_queries: Vec::new(),
            responses: Vec::new(),
            dispatched: Vec::new(),
            subscriptions: Vec::new(),
            outbox: Vec::new(),
        }
    }

    /// Issue `a` into the account of `who`. Fails, changing nothing, when the
    /// class's issuance would overflow.
    pub fn endow(&mut self, who: &Location, a: Asset) -> (ok: bool)
        requires
            old(self).wf(),
        ensures
            final(self).wf(),
            ok == (amount_of(old(self).issuance@, a.id) + a.amount <= u128::MAX),
            !ok ==> *final(self) == *old(self),
            ok ==> forall|w: LocationView, k: u64| #[trigger] balance_of(final(self).ledger@, w, k)
                == balance_of(old(self).ledger@, w, k) + if w == who@ { share(a, k) } else { 0 },
            ok ==> forall|k: u64| #[trigger] amount_of(final(self).issuance@, k)
                == amount_of(old(self).issuance@, k) + share(a, k),
            ok ==> final(self).trap == old(self).trap && final(self).outbox == old(self).outbox,
    {
        let cur = self.issuance.amount(a.id);
        if a.amount > u128::MAX - cur {
            return false;
        }
        let ghost l0 = self.ledger@;
        proof {
            assert(amount_of(self.issuance@, a.id) == ledger_total(self.ledger@, a.id)
                + trap_total(self.trap@, a.id) + amount_of(Seq::<Asset>::empty(), a.id));
        }
        self.issuance.subsume(a);
        self.ledger.deposit(who, a);
        proof {
            assert forall|w: LocationView, k: u64| #[trigger] balance_of(self.ledger@, w, k)
                == balance_of(l0, w, k) + if w == who@ { share(a, k) } else { 0 } by {
                assert(ledger_sum(self.ledger@, Some(w), k) == ledger_sum(l0, Some(w), k) + crate::ledger::moved(Some(w), who@, a, k));
            }
            assert forall|c: u64| #[trigger]
                amount_of(self.issuance@, c) == ledger_total(self.ledger@, c) + trap_total(
                    self.trap@,
                    c,
                ) + amount_of(Seq::<Asset>::empty(), c) by {
                assert(ledger_sum(self.ledger@, None, c) == ledger_sum(l0, None, c) + share(a, c));
            }
        }
        true
    }

    /// The balance of `who` in class `id`.
    pub fn balance(&self, who: &Location, id: u64) -> (r: u128)
        requires
            self.wf(),
        ensures
            r == balance_of(self.ledger@, who@, id),
    {
        self.ledger.balance(who, id)
    }

    /// The total issued of class `id`.
    pub fn total_issuance(&self, id: u64) -> (r: u128)
        requires
            self.wf(),
        ensures
            r == amount_of(self.issuance@, id),
    {
        self.issuance.amount(id)
    }

    /// Expect an answer to query `query_id`.
    pub fn expect_response(&mut self, query_id: u64)
        ensures
            final(self).pending_queries@ == old(self).pending_queries@.push(query_id),
            final(self).ledger == old(self).ledger,
            final(self).trap == old(self).trap,
            final(self).issuance == old(self).issuance,
            final(self).responses == old(self).responses,
            final(self).dispatched == old(self).dispatched,
            final(self).subscriptions == old(self).subscriptions,
    {
        self.pending_queries.push(query_id);
    }

    /// Subscribe `who` to version changes under `query_id`: any earlier
    /// subscription of `who` is replaced, those of others are kept.
    pub fn subscribe(&mut self, who: &Location, query_id: u64)
        ensures
            final(self).pending_queries == old(self).pending_queries,
            final(self).responses == old(self).responses,
            final(self).dispatched == old(self).dispatched,
            final(self).outbox == old(self).outbox,
            final(self).subscriptions@.len() >= 1,
            final(self).subscriptions@.drop_last() == old(self).subscriptions@.filter(keeps(who@)),
            final(self).subscriptions@.last().location@ == who@,
            final(self).subscriptions@.last().query_id == query_id,
            final(self).ledger == old(self).ledger,
            final(self).trap == old(self).trap,
            final(self).issuance == old(self).issuance,
    {
        self.unsubscribe(who);
        let ghost kept = self.subscriptions@;
        let location = who.duplicate();
        self.subscriptions.push(Subscription { location, query_id });
        proof {
            assert(self.subscriptions@.drop_last() =~= kept);
        }
    }

    /// Hand a validated message over for sending.
    pub fn deliver(&mut self, ticket: SendTicket)
        ensures
            final(self).outbox@ == old(self).outbox@.push(ticket),
            final(self).pending_queries == old(self).pending_queries,
            final(self).responses == old(self).responses,
            final(self).dispatched == old(self).dispatched,
            final(self).subscriptions == old(self).subscriptions,
            final(self).ledger == old(self).ledger,
            final(self).trap == old(self).trap,
            final(self).issuance == old(self).issuance,
    {
        self.outbox.push(ticket);
    }

    /// Pay `fee` out of holding to the fee destination, or burn it.
    fn pay_fee(&mut self, c: &Config, holding: &mut Holding, fee: Asset)
        requires
            old(self).running(old(holding)@),
            old(holding).wf(),
            fee.amount <= amount_of(old(holding)@, fee.id),
        ensures
            same_queues(*old(self), *final(self)),
            fee_paid(*c, *old(self), *final(self), fee),
            final(self).running(final(holding)@),
            final(holding).wf(),
            final(self).trap == old(self).trap,
            c.fee_destination is Some ==> final(self).issuance == old(self).issuance,
            final(holding)@.len() <= old(holding)@.len(),
            forall|k: u64| #[trigger] amount_of(final(holding)@, k) + share(fee, k) == amount_of(old(holding)@, k),
    {
        let ghost l0 = self.ledger@;
        let ghost i0 = self.issuance@;
        let ghost h0 = holding@;
        let taken = holding.saturating_take(fee.id, fee.amount);
        let paid = Asset { id: fee.id, amount: taken };
        proof {
            assert(amount_of(i0, fee.id) == ledger_total(l0, fee.id) + trap_total(self.trap@, fee.id) + amount_of(h0, fee.id));
            lemma_amount_of_bounded(i0, fee.id);
            assert(paid == fee);
        }
        match &c.fee_destination {
            Some(dest) => {
                self.ledger.deposit(dest, paid);
                proof {
                    assert forall|k: u64| #[trigger]
                        amount_of(self.issuance@, k) == ledger_total(self.ledger@, k) + trap_total(
                            self.trap@,
                            k,
                        ) + amount_of(holding@, k) by {
                        assert(ledger_sum(self.ledger@, None, k) == ledger_sum(l0, None, k) + share(paid, k));
                        assert(amount_of(i0, k) == ledger_total(l0, k) + trap_total(self.trap@, k) + amount_of(h0, k));
                    }
                }
            },
            None => {
                self.issuance.saturating_take(fee.id, taken);
                proof {
                    assert forall|k: u64| #[trigger]
                        amount_of(self.issuance@, k) == ledger_total(self.ledger@, k) + trap_total(
                            self.trap@,
                            k,
                        ) + amount_of(holding@, k) by {
                        assert(amount_of(i0, k) == ledger_total(l0, k) + trap_total(self.trap@, k) + amount_of(h0, k));
                    }
                }
            },
        }
    }

    /// Move `asset` from the account of `origin` to that of `dest`, and send
    /// `dest` a program that credits `beneficiary` with it, paying the
    /// delivery fee out of holding. Changes nothing when it fails.
    fn transfer_reserve_asset(
        &mut self,
        c: &Config,
        holding: &mut Holding,
        origin: &Location,
        asset: Asset,
        dest: &Location,
        beneficiary: &Location,
    ) -> (r: Result<(), XcmError>)
        requires
            old(self).running(old(holding)@),
            old(holding).wf(),
        ensures
            r == (if route_fee(c.routes@, dest@) is None {
                Err(XcmError::Unroutable)
            } else if amount_of(old(holding)@, route_fee(c.routes@, dest@).unwrap().id) < route_fee(c.routes@, dest@).unwrap().amount {
                Err(XcmError::NotHoldingFees)
            } else if asset.amount > balance_of(old(self).ledger@, origin@, asset.id) {
                Err(XcmError::FailedToTransactAsset)
            } else {
                Ok(())
            }),
            r is Ok ==> holding_moved(old(holding)@, final(holding)@, nothing(), route_fee(c.routes@, dest@).unwrap()),
            r is Ok ==> forall|w: LocationView, k: u64| #[trigger] balance_of(final(self).ledger@, w, k) + cr(Some(origin@), w, asset, k)
                == balance_of(old(self).ledger@, w, k) + cr(Some(dest@), w, asset, k) + fee_credit(*c, w, route_fee(c.routes@, dest@).unwrap(), k),
            r is Ok ==> forall|k: u64| #[trigger] amount_of(final(self).issuance@, k) + fee_burnt(*c, route_fee(c.routes@, dest@).unwrap(), k)
                == amount_of(old(self).issuance@, k),
            r is Ok ==> delivered(*old(self), *final(self), dest@, route_fee(c.routes@, dest@).unwrap(), reserve_message(*c, asset, beneficiary@)),
            final(self).running(final(holding)@),
            final(holding).wf(),
            final(self).trap == old(self).trap,
            c.fee_destination is Some ==> final(self).issuance == old(self).issuance,
            final(holding)@.len() <= old(holding)@.len(),
            r is Err ==> *final(self) == *old(self) && *final(holding) == *old(holding),
    {
        let mut instructions: Vec<Instruction> = Vec::new();
        instructions.push(Instruction::ReserveAssetDeposited(asset));
        instructions.push(Instruction::ClearOrigin);
        instructions.push(Instruction::DepositAsset { id: asset.id, beneficiary: beneficiary.duplicate() });
        let message = Program::new(c.version, instructions);
        proof {
            assert(views(message.instructions@) =~= reserve_message(*c, asset, beneficiary@).instructions);
            assert(views(message.error_handler@) =~= Seq::<InstructionView>::empty());
            assert(views(message.appendix@) =~= Seq::<InstructionView>::empty());
        }
        let ghost pv = message@;
        let ticket = match validate_send(c, dest, &message) {
            Ok(t) => t,
            Err(e) => return Err(e),
        };
        if holding.amount(ticket.fee.id) < ticket.fee.amount {
            return Err(XcmError::NotHoldingFees);
        }
        if !self.transfer_asset(holding, origin, asset, dest) {
            return Err(XcmError::FailedToTransactAsset);
        }
        self.pay_fee(c, holding, ticket.fee);
        let ghost sent = ticket;
        self.deliver(ticket);
        proof {
            assert(self.outbox@.last() == sent);
            assert(program_enc(message) == self.outbox@.last().message@);
            assert(message@ == pv);
            assert(self.outbox@.drop_last() =~= old(self).outbox@);
        }
        Ok(())
    }

    /// Send `destination` the code of `error` as the answer to `query_id`,
    /// paying the delivery fee out of holding. Changes nothing when it fails.
    fn report_error(
        &mut self,
        c: &Config,
        holding: &mut Holding,
        error: Option<XcmError>,
        query_id: u64,
        destination: &Location,
    ) -> (r: Result<(), XcmError>)
        requires
            old(self).running(old(holding)@),
            old(holding).wf(),
        ensures
            r == (if route_fee(c.routes@, destination@) is None {
                Err(XcmError::Unroutable)
            } else if amount_of(old(holding)@, route_fee(c.routes@, destination@).unwrap().id) < route_fee(c.routes@, destination@).unwrap().amount {
                Err(XcmError::NotHoldingFees)
            } else {
                Ok(())
            }),
            r is Ok ==> holding_moved(old(holding)@, final(holding)@, nothing(), route_fee(c.routes@, destination@).unwrap()),
            r is Ok ==> forall|w: LocationView, k: u64| #[trigger] balance_of(final(self).ledger@, w, k)
                == balance_of(old(self).ledger@, w, k) + fee_credit(*c, w, route_fee(c.routes@, destination@).unwrap(), k),
            r is Ok ==> forall|k: u64| #[trigger] amount_of(final(self).issuance@, k) + fee_burnt(*c, route_fee(c.routes@, destination@).unwrap(), k)
                == amount_of(old(self).issuance@, k),
            r is Ok ==> delivered(*old(self), *final(self), destination@, route_fee(c.routes@, destination@).unwrap(),
                report_message(*c, query_id, spec_error_code(error))),
            final(self).running(final(holding)@),
            final(holding).wf(),
            final(self).trap == old(self).trap,
            c.fee_destination is Some ==> final(self).issuance == old(self).issuance,
            final(holding)@.len() <= old(holding)@.len(),
            r is Err ==> *final(self) == *old(self) && *final(holding) == *old(holding),
    {
        let mut instructions: Vec<Instruction> = Vec::new();
        instructions.push(Instruction::QueryResponse { query_id, response: error_code(error) });
        let message = Program::new(c.version, instructions);
        proof {
            assert(views(message.instructions@) =~= report_message(*c, query_id, spec_error_code(error)).instructions);
            assert(views(message.error_handler@) =~= Seq::<InstructionView>::empty());
            assert(views(message.appendix@) =~= Seq::<InstructionView>::empty());
        }
        let ghost pv = message@;
        let ticket = match validate_send(c, destination, &message) {
            Ok(t) => t,
            Err(e) => return Err(e),
        };
        if holding.amount(ticket.fee.id) < ticket.fee.amount {
            return Err(XcmError::NotHoldingFees);
        }
        self.pay_fee(c, holding, ticket.fee);
        let ghost sent = ticket;
        self.deliver(ticket);
        proof {
            assert(self.outbox@.last() == sent);
            assert(program_enc(message) == self.outbox@.last().message@);
            assert(message@ == pv);
            assert(self.outbox@.drop_last() =~= old(self).outbox@);
        }
        Ok(())
    }

    /// End every subscription of `who`; those of others are kept, in order.
    pub fn unsubscribe(&mut self, who: &Location)
        ensures
            final(self).pending_queries == old(self).pending_queries,
            final(self).responses == old(self).responses,
            final(self).dispatched == old(self).dispatched,
            final(self).outbox == old(self).outbox,
            final(self).subscriptions@ == old(self).subscriptions@.filter(keeps(who@)),
            final(self).ledger == old(self).ledger,
            final(self).trap == old(self).trap,
            final(self).issuance == old(self).issuance,
    {
        let ghost orig = self.subscriptions@;
        let ghost mut j: int = 0;
        let mut i: usize = 0;
        proof {
            reveal(Seq::filter);
            assert(orig.take(0).filter(keeps(who@)) =~= Seq::<Subscription>::empty());
            assert(orig.skip(0) =~= orig);
            assert(self.subscriptions@ =~= orig.take(0).filter(keeps(who@)) + orig.skip(0));
        }
        while i < self.subscriptions.len()
            invariant
                0 <= j <= orig.len(),
                self.ledger == old(self).ledger,
                self.trap == old(self).trap,
                self.issuance == old(self).issuance,
                self.pending_queries == old(self).pending_queries,
                self.responses == old(self).responses,
                self.dispatched == old(self).dispatched,
                self.outbox == old(self).outbox,
                i == orig.take(j).filter(keeps(who@)).len(),
                self.subscriptions@ == orig.take(j).filter(keeps(who@)) + orig.skip(j),
            decreases self.subscriptions.len() - i,
        {
            let ghost before = self.subscriptions@;
            proof {
                reveal(Seq::filter);
                assert(j < orig.len());
                assert(before[i as int] == orig[j]);
                assert(orig.take(j + 1).drop_last() =~= orig.take(j));
                assert(orig.take(j + 1).last() == orig[j]);
            }
            if self.subscriptions[i].location.same_as(who) {
                self.subscriptions.remove(i);
                proof {
                    assert(self.subscriptions@ =~= orig.take(j + 1).filter(keeps(who@)) + orig.skip(j + 1));
                    j = j + 1;
                }
            } else {
                proof {
                    assert(self.subscriptions@ =~= orig.take(j + 1).filter(keeps(who@)) + orig.skip(j + 1));
                    j = j + 1;
                }
                i = i + 1;
            }
        }
        proof {
            assert(orig.skip(j).len() == 0);
            assert(orig.take(j) =~= orig);
            assert(self.subscriptions@ =~= orig.filter(keeps(who@)));
        }
    }

    /// Move `a` from the account of `origin` into holding.
    fn withdraw_asset(&mut self, holding: &mut Holding, origin: &Location, a: Asset) -> (r: bool)
        requires
            old(self).running(old(holding)@),
            old(holding).wf(),
        ensures
            same_queues(*old(self), *final(self)),
            r == (a.amount <= balance_of(old(self).ledger@, origin@, a.id)),
            r ==> holding_moved(old(holding)@, final(holding)@, a, nothing()),
            r ==> forall|w: LocationView, k: u64| #[trigger] balance_of(final(self).ledger@, w, k)
                + cr(Some(origin@), w, a, k) == balance_of(old(self).ledger@, w, k),
            final(self).issuance == old(self).issuance,
            final(self).running(final(holding)@),
            final(holding).wf(),
            final(self).trap == old(self).trap,
            final(holding)@.len() <= old(holding)@.len() + 1,
            !r ==> *final(self) == *old(self) && *final(holding) == *old(holding),
    {
        let ghost l0 = self.ledger@;
        let ghost h0 = holding@;
        if !self.ledger.withdraw(origin, a) {
            return false;
        }
        proof {
            assert(ledger_sum(self.ledger@, None, a.id) + share(a, a.id) == ledger_sum(l0, None, a.id));
            assert(amount_of(self.issuance@, a.id) == ledger_total(l0, a.id) + trap_total(self.trap@, a.id) + amount_of(h0, a.id));
            lemma_amount_of_bounded(self.issuance@, a.id);
        }
        holding.subsume(a);
        proof {
            assert forall|c: u64| #[trigger]
                amount_of(self.issuance@, c) == ledger_total(self.ledger@, c) + trap_total(
                    self.trap@,
                    c,
                ) + amount_of(holding@, c) by {
                assert(ledger_sum(self.ledger@, None, c) + share(a, c) == ledger_sum(l0, None, c));
                assert(amount_of(self.issuance@, c) == ledger_total(l0, c) + trap_total(self.trap@, c) + amount_of(h0, c));
            }
        }
        true
    }

    /// Issue `a` into holding. Fails, changing nothing, when the class's
    /// issuance would overflow.
    fn mint_asset(&mut self, holding: &mut Holding, a: Asset) -> (r: bool)
        requires
            old(self).running(old(holding)@),
            old(holding).wf(),
        ensures
            same_queues(*old(self), *final(self)),
            r == (amount_of(old(self).issuance@, a.id) + a.amount <= u128::MAX),
            r ==> holding_moved(old(holding)@, final(holding)@, a, nothing()),
            r ==> final(self).ledger == old(self).ledger,
            r ==> forall|k: u64| #[trigger] amount_of(final(self).issuance@, k) == amount_of(old(self).issuance@, k) + share(a, k),
            final(self).running(final(holding)@),
            final(holding).wf(),
            final(self).trap == old(self).trap,
            final(holding)@.len() <= old(holding)@.len() + 1,
            !r ==> *final(self) == *old(self) && *final(holding) == *old(holding),
    {
        let cur = self.issuance.amount(a.id);
        if a.amount > u128::MAX - cur {
            return false;
        }
        let ghost i0 = self.issuance@;
        let ghost h0 = holding@;
        proof {
            assert(amount_of(i0, a.id) == ledger_total(self.ledger@, a.id) + trap_total(self.trap@, a.id) + amount_of(h0, a.id));
        }
        self.issuance.subsume(a);
        holding.subsume(a);
        proof {
            assert forall|c: u64| #[trigger]
                amount_of(self.issuance@, c) == ledger_total(self.ledger@, c) + trap_total(
                    self.trap@,
                    c,
                ) + amount_of(holding@, c) by {
                assert(amount_of(i0, c) == ledger_total(self.ledger@, c) + trap_total(self.trap@, c) + amount_of(h0, c));
            }
        }
        true
    }

    /// Move everything held of class `id` to the account of `beneficiary`.
    fn deposit_asset(&mut self, holding: &mut Holding, id: u64, beneficiary: &Location)
        requires
            old(self).running(old(holding)@),
            old(holding).wf(),
        ensures
            same_queues(*old(self), *final(self)),
            holding_moved(old(holding)@, final(holding)@, nothing(), Asset { id, amount: amount_of(old(holding)@, id) as u128 }),
            forall|w: LocationView, k: u64| #[trigger] balance_of(final(self).ledger@, w, k)
                == balance_of(old(self).ledger@, w, k) + cr(Some(beneficiary@), w, Asset { id, amount: amount_of(old(holding)@, id) as u128 }, k),
            final(self).issuance == old(self).issuance,
            final(self).running(final(holding)@),
            final(holding).wf(),
            final(self).trap == old(self).trap,
            final(holding)@.len() <= old(holding)@.len(),
            amount_of(final(holding)@, id) == 0,
    {
        let ghost l0 = self.ledger@;
        let ghost h0 = holding@;
        let amount = holding.saturating_take(id, u128::MAX);
        proof {
            lemma_amount_of_bounded(self.issuance@, id);
            assert(amount_of(self.issuance@, id) == ledger_total(l0, id) + trap_total(self.trap@, id) + amount_of(h0, id));
            assert(amount_of(holding@, id) + share(Asset { id, amount }, id) == amount_of(h0, id));
        }
        let a = Asset { id, amount };
        self.ledger.deposit(beneficiary, a);
        proof {
            assert forall|c: u64| #[trigger]
                amount_of(self.issuance@, c) == ledger_total(self.ledger@, c) + trap_total(
                    self.trap@,
                    c,
                ) + amount_of(holding@, c) by {
                assert(ledger_sum(self.ledger@, None, c) == ledger_sum(l0, None, c) + share(a, c));
                assert(amount_of(holding@, c) + share(a, c) == amount_of(h0, c));
                assert(amount_of(self.issuance@, c) == ledger_total(l0, c) + trap_total(self.trap@, c) + amount_of(h0, c));
            }
        }
    }

    /// Move `a` from the account of `origin` to that of `beneficiary`.
    fn transfer_asset(&mut self, holding: &Holding, origin: &Location, a: Asset, beneficiary: &Location) -> (r: bool)
        requires
            old(self).running(holding@),
        ensures
            same_queues(*old(self), *final(self)),
            r == (a.amount <= balance_of(old(self).ledger@, origin@, a.id)),
            r ==> forall|w: LocationView, k: u64| #[trigger] balance_of(final(self).ledger@, w, k)
                + cr(Some(origin@), w, a, k) == balance_of(old(self).ledger@, w, k) + cr(Some(beneficiary@), w, a, k),
            final(self).issuance == old(self).issuance,
            final(self).running(holding@),
            final(self).trap == old(self).trap,
            !r ==> *final(self) == *old(self),
    {
        let ghost l0 = self.ledger@;
        if !self.ledger.withdraw(origin, a) {
            return false;
        }
        let ghost l1 = self.ledger@;
        proof {
            assert(ledger_sum(l1, None, a.id) + share(a, a.id) == ledger_sum(l0, None, a.id));
            assert(amount_of(self.issuance@, a.id) == ledger_total(l0, a.id) + trap_total(self.trap@, a.id) + amount_of(holding@, a.id));
            lemma_amount_of_bounded(self.issuance@, a.id);
        }
        self.ledger.deposit(beneficiary, a);
        proof {
            assert forall|c: u64| #[trigger]
                amount_of(self.issuance@, c) == ledger_total(self.ledger@, c) + trap_total(
                    self.trap@,
                    c,
                ) + amount_of(holding@, c) by {
                assert(ledger_sum(l1, None, c) + share(a, c) == ledger_sum(l0, None, c));
                assert(ledger_sum(self.ledger@, None, c) == ledger_sum(l1, None, c) + share(a, c));
                assert(amount_of(self.issuance@, c) == ledger_total(l0, c) + trap_total(self.trap@, c) + amount_of(holding@, c));
            }
        }
        true
    }
}


impl State {
    /// Pay for `weight_limit` of execution out of holding, offering at most
    /// `fees`; the price goes to the fee destination or is burnt, and the
    /// change stays in holding.
    fn buy_execution(&mut self, c: &Config, holding: &mut Holding, fees: Asset, weight_limit: Weight) -> (r: Result<(), XcmError>)
        requires
            old(self).running(old(holding)@),
            old(holding).wf(),
        ensures
            same_queues(*old(self), *final(self)),
            r == (if amount_of(old(holding)@, fees.id) < fees.amount {
                Err(XcmError::NotHoldingFees)
            } else if price_of(*c, fees, weight_limit) is None || price_of(*c, fees, weight_limit).unwrap() > fees.amount {
                Err(XcmError::TooExpensive)
            } else {
                Ok(())
            }),
            r is Ok ==> holding_moved(old(holding)@, final(holding)@, nothing(), Asset { id: fees.id, amount: price_of(*c, fees, weight_limit).unwrap() }),
            r is Ok ==> fee_paid(*c, *old(self), *final(self), Asset { id: fees.id, amount: price_of(*c, fees, weight_limit).unwrap() }),
            c.fee_destination is Some ==> final(self).issuance == old(self).issuance,
            final(self).running(final(holding)@),
            final(holding).wf(),
            final(self).trap == old(self).trap,
            final(holding)@.len() <= old(holding)@.len(),
            r is Err ==> *final(self) == *old(self) && *final(holding) == *old(holding),
            r == Err::<(), XcmError>(XcmError::NotHoldingFees) <==> amount_of(old(holding)@, fees.id) < fees.amount,
    {
        if holding.amount(fees.id) < fees.amount {
            return Err(XcmError::NotHoldingFees);
        }
        let rate = match find_rate(&c.fee_rates, fees.id) {
            Some(rate) => rate,
            None => return Err(XcmError::TooExpensive),
        };
        let price = match (weight_limit.ref_time as u128).checked_mul(rate) {
            Some(p) => p,
            None => return Err(XcmError::TooExpensive),
        };
        if price > fees.amount {
            return Err(XcmError::TooExpensive);
        }
        self.pay_fee(c, holding, Asset { id: fees.id, amount: price });
        Ok(())
    }

    /// Record the answer to `query_id` if it is outstanding; an answer to an
    /// unknown query is dropped.
    fn query_response(&mut self, query_id: u64, response: u64)
        ensures
            final(self).ledger == old(self).ledger,
            final(self).trap == old(self).trap,
            final(self).issuance == old(self).issuance,
            old(self).pending_queries@.contains(query_id) ==> final(self).responses@
                == old(self).responses@.push((query_id, response)) && exists|k: int| 0 <= k < old(self).pending_queries@.len()
                && old(self).pending_queries@[k] == query_id && (forall|j: int| 0 <= j < k ==> old(self).pending_queries@[j] != query_id)
                && final(self).pending_queries@ == old(self).pending_queries@.remove(k),
            final(self).dispatched == old(self).dispatched && final(self).subscriptions == old(self).subscriptions
                && final(self).outbox == old(self).outbox,
            !old(self).pending_queries@.contains(query_id) ==> *final(self) == *old(self),
    {
        let mut i: usize = 0;
        while i < self.pending_queries.len()
            invariant
                i <= self.pending_queries.len(),
                *self == *old(self),
                forall|k: int| 0 <= k < i ==> self.pending_queries@[k] != query_id,
            decreases self.pending_queries.len() - i,
        {
            if self.pending_queries[i] == query_id {
                self.pending_queries.remove(i);
                self.responses.push((query_id, response));
                return;
            }
            i = i + 1;
        }
    }

    /// Take back the set `assets` trapped under `origin` into holding.
    fn claim_asset(&mut self, holding: &mut Holding, origin: &Location, assets: &Vec<Asset>) -> (r: bool)
        requires
            old(self).running(old(holding)@),
            old(holding).wf(),
        ensures
            same_queues(*old(self), *final(self)),
            r ==> final(self).ledger == old(self).ledger,
            r ==> exists|k: int| 0 <= k < old(self).trap@.len() && claim_matches(#[trigger] old(self).trap@[k], origin@, assets@)
                && (forall|j: int| 0 <= j < k ==> !claim_matches(old(self).trap@[j], origin@, assets@))
                && final(self).trap@ == old(self).trap@.remove(k)
                && forall|c: u64| #[trigger] amount_of(final(holding)@, c) == amount_of(old(holding)@, c) + amount_of(old(self).trap@[k].assets@, c),
            final(self).issuance == old(self).issuance,
            final(self).running(final(holding)@),
            final(holding).wf(),
            final(holding)@.len() <= old(holding)@.len() + assets@.len(),
            r == claimable(old(self).trap@, origin@, assets@),
            !r ==> *final(self) == *old(self) && *final(holding) == *old(holding),
    {
        let got = self.trap.claim(origin, assets);
        let assets = match got {
            None => return false,
            Some(v) => v,
        };
        let ghost h0 = holding@;
        let mut i: usize = 0;
        while i < assets.len()
            invariant
                i <= assets.len(),
                holding.wf(),
                holding@.len() <= h0.len() + i,
                self.ledger.wf(),
                self.issuance.wf(),
                forall|k: u64| #[trigger]
                    amount_of(holding@, k) == amount_of(h0, k) + amount_of(assets@.take(i as int), k),
                forall|k: u64| #[trigger]
                    amount_of(self.issuance@, k) == ledger_total(self.ledger@, k) + trap_total(self.trap@, k)
                        + amount_of(assets@, k) + amount_of(h0, k),
            decreases assets.len() - i,
        {
            let a = assets[i];
            proof {
                assert(assets@.take(i as int + 1) =~= assets@.take(i as int).push(a));
                lemma_amount_of_push(assets@.take(i as int), a, a.id);
                lemma_amount_of_prefix(assets@, i as int + 1, a.id);
                lemma_amount_of_bounded(self.issuance@, a.id);
                assert(amount_of(self.issuance@, a.id) == ledger_total(self.ledger@, a.id) + trap_total(self.trap@, a.id)
                    + amount_of(assets@, a.id) + amount_of(h0, a.id));
            }
            holding.subsume(a);
            proof {
                assert forall|k: u64| #[trigger]
                    amount_of(holding@, k) == amount_of(h0, k) + amount_of(assets@.take(i as int + 1), k) by {
                    lemma_amount_of_push(assets@.take(i as int), a, k);
                }
            }
            i = i + 1;
        }
        proof {
            assert(assets@.take(i as int) =~= assets@);
        }
        true
    }
}


/// A teleport that the executor must refuse: `ins` receives a teleported
/// asset from an origin that is not trusted to teleport it.
pub open spec fn untrusted_teleport(c: Config, origin: Option<Location>, ins: Instruction) -> bool {
    match ins {
        Instruction::ReceiveTeleportedAsset(a) => origin is Some && !trusts(
            c.teleporters@,
            a.id,
            origin.unwrap()@,
        ),
        _ => false,
    }
}

/// An instruction that issues new units: accepting a reserve deposit or a
/// teleport.
pub open spec fn mints(ins: Instruction) -> bool {
    ins is ReserveAssetDeposited || ins is ReceiveTeleportedAsset
}

/// No instruction of `s` issues new units.
pub open spec fn mints_none(s: Seq<Instruction>) -> bool {
    forall|k: int| 0 <= k < s.len() ==> !mints(#[trigger] s[k])
}

/// Nothing that `p` may run issues new units.
pub open spec fn program_mints_none(p: Program) -> bool {
    mints_none(p.instructions@) && mints_none(p.error_handler@) && mints_none(p.appendix@)
}

/// `x` as a weight; exact where `fits(x)`.
pub open spec fn bound_weight(x: (nat, nat)) -> Weight {
    Weight { ref_time: x.0 as u64, proof_size: x.1 as u64 }
}

/// Whether `execute` runs `p` at all: the version matches, the cost bound
/// fits within `limit`, and the barrier admits the program.
pub open spec fn admitted(c: Config, origin: Location, p: Program, limit: Weight) -> bool {
    p.version == c.version && fits(program_cost(c, p)) && cost_lte(
        program_cost(c, p),
        cost_of_weight(limit),
    ) && barrier_allows(c.barriers@, origin@, p.instructions@, bound_weight(program_cost(c, p)))
}

/// The weight an outcome reports as used.
pub open spec fn weight_used(o: Outcome) -> Weight {
    match o {
        Outcome::Complete { used } => used,
        Outcome::Incomplete { used, .. } => used,
        Outcome::Error { .. } => Weight { ref_time: 0, proof_size: 0 },
    }
}

/// The error that `ins` fails with, from state `s`, holding `h`, origin `o`
/// and error register `err`; `None` when it succeeds.
pub open spec fn step_error(
    c: Config,
    s: State,
    h: Seq<Asset>,
    o: Option<Location>,
    err: Option<XcmError>,
    ins: Instruction,
) -> Option<XcmError> {
    match ins {
        Instruction::WithdrawAsset(a) => if o is None {
            Some(XcmError::BadOrigin)
        } else if h.len() >= c.max_assets_in_holding {
            Some(XcmError::HoldingWouldOverflow)
        } else if a.amount > balance_of(s.ledger@, o.unwrap()@, a.id) {
            Some(XcmError::FailedToTransactAsset)
        } else {
            None
        },
        Instruction::ReserveAssetDeposited(a) => if o is None {
            Some(XcmError::BadOrigin)
        } else if !trusts(c.reserves@, a.id, o.unwrap()@) {
            Some(XcmError::UntrustedReserveLocation)
        } else if h.len() >= c.max_assets_in_holding {
            Some(XcmError::HoldingWouldOverflow)
        } else if amount_of(s.issuance@, a.id) + a.amount > u128::MAX {
            Some(XcmError::Overflow)
        } else {
            None
        },
        Instruction::ReceiveTeleportedAsset(a) => if o is None {
            Some(XcmError::BadOrigin)
        } else if !trusts(c.teleporters@, a.id, o.unwrap()@) {
            Some(XcmError::UntrustedTeleportLocation)
        } else if h.len() >= c.max_assets_in_holding {
            Some(XcmError::HoldingWouldOverflow)
        } else if amount_of(s.issuance@, a.id) + a.amount > u128::MAX {
            Some(XcmError::Overflow)
        } else {
            None
        },
        Instruction::BuyExecution { fees, weight_limit } => if o is Some && listed(
            c.waived_origins@,
            o.unwrap()@,
        ) {
            None
        } else if amount_of(h, fees.id) < fees.amount {
            Some(XcmError::NotHoldingFees)
        } else if price_of(c, fees, weight_limit) is None || price_of(c, fees, weight_limit).unwrap()
            > fees.amount {
            Some(XcmError::TooExpensive)
        } else {
            None
        },
        Instruction::DepositAsset { .. } => None,
        Instruction::TransferAsset { asset, .. } => if o is None {
            Some(XcmError::BadOrigin)
        } else if asset.amount > balance_of(s.ledger@, o.unwrap()@, asset.id) {
            Some(XcmError::FailedToTransactAsset)
        } else {
            None
        },
        Instruction::Transact { origin_kind, require_weight_at_most, call } => if o is None {
            Some(XcmError::BadOrigin)
        } else if !may_dispatch(c, o.unwrap()@, origin_kind) {
            Some(XcmError::BadOrigin)
        } else if call@.len() > c.max_call_len {
            Some(XcmError::NoPermission)
        } else if sat_mul(call@.len() as u64, c.call_weight_per_byte)
            > require_weight_at_most.ref_time {
            Some(XcmError::MaxWeightInvalid)
        } else {
            None
        },
        Instruction::QueryResponse { .. } => None,
        Instruction::ClaimAsset { assets } => if o is None {
            Some(XcmError::BadOrigin)
        } else if assets@.len() + h.len() > c.max_assets_in_holding {
            Some(XcmError::HoldingWouldOverflow)
        } else if !claimable(s.trap@, o.unwrap()@, assets@) {
            Some(XcmError::UnknownClaim)
        } else {
            None
        },
        Instruction::ClearOrigin => None,
        Instruction::DescendOrigin(_) => if o is None {
            Some(XcmError::BadOrigin)
        } else {
            None
        },
        Instruction::SubscribeVersion { .. } => if o is None {
            Some(XcmError::BadOrigin)
        } else {
            None
        },
        Instruction::UnsubscribeVersion => if o is None {
            Some(XcmError::BadOrigin)
        } else {
            None
        },
        Instruction::AliasOrigin(t) => if o is None {
            Some(XcmError::BadOrigin)
        } else if !may_alias(c.aliasers@, o.unwrap()@, t@) {
            Some(XcmError::NoPermission)
        } else {
            None
        },
        Instruction::TransferReserveAsset { asset, dest, .. } => if o is None {
            Some(XcmError::BadOrigin)
        } else if route_fee(c.routes@, dest@) is None {
            Some(XcmError::Unroutable)
        } else if amount_of(h, route_fee(c.routes@, dest@).unwrap().id) < route_fee(
            c.routes@,
            dest@,
        ).unwrap().amount {
            Some(XcmError::NotHoldingFees)
        } else if asset.amount > balance_of(s.ledger@, o.unwrap()@, asset.id) {
            Some(XcmError::FailedToTransactAsset)
        } else {
            None
        },
        Instruction::ReportError { destination, .. } => if route_fee(c.routes@, destination@) is None {
            Some(XcmError::Unroutable)
        } else if amount_of(h, route_fee(c.routes@, destination@).unwrap().id) < route_fee(
            c.routes@,
            destination@,
        ).unwrap().amount {
            Some(XcmError::NotHoldingFees)
        } else {
            None
        },
    }
}

/// Everything but the trap and issuance is as in `s0`, and the trap too.
pub open spec fn only_ledger_issuance(s0: State, s1: State) -> bool {
    s1.trap == s0.trap && same_queues(s0, s1)
}

/// What a successful `ins` makes of state `s0`, holding `h0` and origin `o0`:
/// state `s1`, holding `h1` and origin `o1`.
pub open spec fn step_effect(
    c: Config,
    s0: State,
    h0: Seq<Asset>,
    o0: Option<Location>,
    err: Option<XcmError>,
    ins: Instruction,
    s1: State,
    h1: Seq<Asset>,
    o1: Option<Location>,
) -> bool {
    match ins {
        Instruction::WithdrawAsset(a) => only_ledger_issuance(s0, s1) && o1 == o0 && s1.issuance
            == s0.issuance && holding_moved(h0, h1, a, nothing()) && forall|w: LocationView, k: u64|
            #[trigger] balance_of(s1.ledger@, w, k) + cr(Some(o0.unwrap()@), w, a, k) == balance_of(
            s0.ledger@,
            w,
            k,
        ),
        Instruction::ReserveAssetDeposited(a) => only_ledger_issuance(s0, s1) && o1 == o0
            && s1.ledger == s0.ledger && holding_moved(h0, h1, a, nothing()) && forall|k: u64|
            #[trigger] amount_of(s1.issuance@, k) == amount_of(s0.issuance@, k) + share(a, k),
        Instruction::ReceiveTeleportedAsset(a) => only_ledger_issuance(s0, s1) && o1 == o0
            && s1.ledger == s0.ledger && holding_moved(h0, h1, a, nothing()) && forall|k: u64|
            #[trigger] amount_of(s1.issuance@, k) == amount_of(s0.issuance@, k) + share(a, k),
        Instruction::BuyExecution { fees, weight_limit } => o1 == o0 && if o0 is Some && listed(
            c.waived_origins@,
            o0.unwrap()@,
        ) {
            s1 == s0 && h1 == h0
        } else {
            same_queues(s0, s1) && holding_moved(
                h0,
                h1,
                nothing(),
                Asset { id: fees.id, amount: price_of(c, fees, weight_limit).unwrap() },
            ) && fee_paid(
                c,
                s0,
                s1,
                Asset { id: fees.id, amount: price_of(c, fees, weight_limit).unwrap() },
            )
        },
        Instruction::DepositAsset { id, beneficiary } => only_ledger_issuance(s0, s1) && o1 == o0
            && s1.issuance == s0.issuance && holding_moved(
            h0,
            h1,
            nothing(),
            Asset { id, amount: amount_of(h0, id) as u128 },
        ) && forall|w: LocationView, k: u64| #[trigger] balance_of(s1.ledger@, w, k) == balance_of(
            s0.ledger@,
            w,
            k,
        ) + cr(Some(beneficiary@), w, Asset { id, amount: amount_of(h0, id) as u128 }, k),
        Instruction::TransferAsset { asset, beneficiary } => only_ledger_issuance(s0, s1) && o1
            == o0 && h1 == h0 && s1.issuance == s0.issuance && forall|w: LocationView, k: u64|
            #[trigger] balance_of(s1.ledger@, w, k) + cr(Some(o0.unwrap()@), w, asset, k)
                == balance_of(s0.ledger@, w, k) + cr(Some(beneficiary@), w, asset, k),
        Instruction::Transact { origin_kind, call, .. } => o1 == o0 && h1 == h0 && s1.ledger
            == s0.ledger && s1.trap == s0.trap && s1.issuance == s0.issuance && s1.pending_queries
            == s0.pending_queries && s1.responses == s0.responses && s1.subscriptions
            == s0.subscriptions && s1.outbox == s0.outbox && s1.dispatched@.len()
            == s0.dispatched@.len() + 1 && s1.dispatched@.drop_last() == s0.dispatched@
            && s1.dispatched@.last().origin@ == o0.unwrap()@ && s1.dispatched@.last().kind
            == origin_kind && s1.dispatched@.last().call@ == call@,
        Instruction::QueryResponse { query_id, response } => o1 == o0 && h1 == h0 && s1.ledger
            == s0.ledger && s1.trap == s0.trap && s1.issuance == s0.issuance && s1.dispatched
            == s0.dispatched && s1.subscriptions == s0.subscriptions && s1.outbox == s0.outbox && if s0.pending_queries@.contains(query_id) {
            s1.responses@ == s0.responses@.push((query_id, response)) && exists|k: int|
                0 <= k < s0.pending_queries@.len() && s0.pending_queries@[k] == query_id && (forall|j: int|
                    0 <= j < k ==> s0.pending_queries@[j] != query_id) && s1.pending_queries@
                    == s0.pending_queries@.remove(k)
        } else {
            s1.responses == s0.responses && s1.pending_queries == s0.pending_queries
        },
        Instruction::ClaimAsset { assets } => o1 == o0 && same_queues(s0, s1) && s1.ledger
            == s0.ledger && s1.issuance == s0.issuance && exists|k: int|
            0 <= k < s0.trap@.len() && claim_matches(#[trigger] s0.trap@[k], o0.unwrap()@, assets@)
                && (forall|j: int| 0 <= j < k ==> !claim_matches(s0.trap@[j], o0.unwrap()@, assets@))
                && s1.trap@ == s0.trap@.remove(k) && forall|c: u64| #[trigger] amount_of(h1, c)
                == amount_of(h0, c) + amount_of(s0.trap@[k].assets@, c),
        Instruction::ClearOrigin => s1 == s0 && h1 == h0 && o1 is None,
        Instruction::DescendOrigin(j) => s1 == s0 && h1 == h0 && o1 is Some && o1.unwrap()@ == (
        LocationView { parents: o0.unwrap()@.parents, interior: o0.unwrap()@.interior.push(j) }),
        Instruction::SubscribeVersion { query_id } => o1 == o0 && h1 == h0 && s1.ledger
            == s0.ledger && s1.trap == s0.trap && s1.issuance == s0.issuance && s1.pending_queries
            == s0.pending_queries && s1.responses == s0.responses && s1.dispatched == s0.dispatched
            && s1.outbox == s0.outbox && s1.subscriptions@.len() >= 1
            && s1.subscriptions@.drop_last() == s0.subscriptions@.filter(keeps(o0.unwrap()@))
            && s1.subscriptions@.last().location@ == o0.unwrap()@
            && s1.subscriptions@.last().query_id == query_id,
        Instruction::UnsubscribeVersion => o1 == o0 && h1 == h0 && s1.ledger == s0.ledger
            && s1.trap == s0.trap && s1.issuance == s0.issuance && s1.pending_queries
            == s0.pending_queries && s1.responses == s0.responses && s1.dispatched == s0.dispatched
            && s1.outbox == s0.outbox && s1.subscriptions@ == s0.subscriptions@.filter(
            keeps(o0.unwrap()@),
        ),
        Instruction::AliasOrigin(t) => s1 == s0 && h1 == h0 && o1 is Some && o1.unwrap()@ == t@,
        Instruction::TransferReserveAsset { asset, dest, beneficiary } => o1 == o0 && s1.trap
            == s0.trap && holding_moved(h0, h1, nothing(), route_fee(c.routes@, dest@).unwrap())
            && (forall|w: LocationView, k: u64| #[trigger] balance_of(s1.ledger@, w, k) + cr(
            Some(o0.unwrap()@),
            w,
            asset,
            k,
        ) == balance_of(s0.ledger@, w, k) + cr(Some(dest@), w, asset, k) + fee_credit(
            c,
            w,
            route_fee(c.routes@, dest@).unwrap(),
            k,
        )) && (forall|k: u64| #[trigger] amount_of(s1.issuance@, k) + fee_burnt(
            c,
            route_fee(c.routes@, dest@).unwrap(),
            k,
        ) == amount_of(s0.issuance@, k)) && delivered(
            s0,
            s1,
            dest@,
            route_fee(c.routes@, dest@).unwrap(),
            reserve_message(c, asset, beneficiary@),
        ),
        Instruction::ReportError { query_id, destination } => o1 == o0 && s1.trap == s0.trap
            && holding_moved(h0, h1, nothing(), route_fee(c.routes@, destination@).unwrap()) && (
        forall|w: LocationView, k: u64| #[trigger] balance_of(s1.ledger@, w, k) == balance_of(
            s0.ledger@,
            w,
            k,
        ) + fee_credit(c, w, route_fee(c.routes@, destination@).unwrap(), k)) && (forall|k: u64|
            #[trigger] amount_of(s1.issuance@, k) + fee_burnt(
            c,
            route_fee(c.routes@, destination@).unwrap(),
            k,
        ) == amount_of(s0.issuance@, k)) && delivered(
            s0,
            s1,
            destination@,
            route_fee(c.routes@, destination@).unwrap(),
            report_message(c, query_id, spec_error_code(err)),
        ),
    }
}

/// The weight one instruction uses: the base weight, and for a successful
/// `Transact` also what its call costs.
pub open spec fn step_weight(c: Config, ins: Instruction, ok: bool) -> (nat, nat) {
    match ins {
        Instruction::Transact { call, .. } => if ok {
            (
                (c.base_weight.ref_time + sat_mul(call@.len() as u64, c.call_weight_per_byte)) as nat,
                c.base_weight.proof_size as nat,
            )
        } else {
            cost_of_weight(c.base_weight)
        },
        _ => cost_of_weight(c.base_weight),
    }
}

/// The weight used by the first `n` instructions of `s`, all successful.
pub open spec fn ok_weight(c: Config, s: Seq<Instruction>, n: nat) -> (nat, nat)
    decreases n,
{
    if n == 0 || n > s.len() {
        (0, 0)
    } else {
        add_cost(ok_weight(c, s, (n - 1) as nat), step_weight(c, s[n - 1], true))
    }
}

/// The weight a run of `s` that ended as `fail` used.
pub open spec fn run_weight(c: Config, s: Seq<Instruction>, fail: Option<(usize, XcmError)>) -> (nat, nat) {
    match fail {
        None => ok_weight(c, s, s.len()),
        Some((i, _)) => add_cost(ok_weight(c, s, i as nat), step_weight(c, s[i as int], false)),
    }
}

/// A state of the run: persistent state, holding, origin.
pub type Snapshot = (State, Seq<Asset>, Option<Location>);

/// `tr` is how running `s` with error register `err` went: each snapshot
/// but the last leads by a successful step to the next; then either every
/// instruction has run (`fail` is `None`), or the instruction at `i` failed
/// with `e` from the last snapshot (`fail` is `Some((i, e))`) and nothing
/// after it ran.
#[verifier::opaque]
pub open spec fn runs(
    c: Config,
    err: Option<XcmError>,
    s: Seq<Instruction>,
    tr: Seq<Snapshot>,
    fail: Option<(usize, XcmError)>,
) -> bool {
    &&& 1 <= tr.len() <= s.len() + 1
    &&& forall|k: int|
        #![trigger tr[k]]
        0 <= k < tr.len() - 1 ==> step_error(c, tr[k].0, tr[k].1, tr[k].2, err, s[k]) is None
            && step_effect(c, tr[k].0, tr[k].1, tr[k].2, err, s[k], tr[k + 1].0, tr[k + 1].1, tr[k + 1].2)
    &&& match fail {
        None => tr.len() == s.len() + 1,
        Some((i, e)) => i == tr.len() - 1 && i < s.len() && step_error(
            c,
            tr[i as int].0,
            tr[i as int].1,
            tr[i as int].2,
            err,
            s[i as int],
        ) == Some(e),
    }
}

/// The error register after a failure record.
pub open spec fn register(f: Option<(usize, XcmError)>) -> Option<XcmError> {
    match f {
        Some((_, e)) => Some(e),
        None => None,
    }
}

/// `sf` is `sa` with holding `ha` left over trapped under `origin`; an empty
/// leftover leaves everything as it was.
pub open spec fn trapped_leftover(sa: State, ha: Seq<Asset>, origin: LocationView, sf: State) -> bool {
    if ha.len() == 0 {
        sf == sa
    } else {
        sf.ledger == sa.ledger && sf.issuance == sa.issuance && same_queues(sa, sf) && sf.trap@.len()
            == sa.trap@.len() + 1 && sf.trap@.drop_last() == sa.trap@ && sf.trap@.last().origin@
            == origin && sf.trap@.last().assets@ == ha
    }
}

/// How an admitted program `p` ran from `s0` to `sf` with outcome `r`, given
/// the traces of its main sequence, error handler and appendix.
pub open spec fn executed(
    c: Config,
    s0: State,
    origin: Location,
    p: Program,
    tm: Seq<Snapshot>,
    fm: Option<(usize, XcmError)>,
    th: Seq<Snapshot>,
    fh: Option<(usize, XcmError)>,
    ta: Seq<Snapshot>,
    fa: Option<(usize, XcmError)>,
    sf: State,
    r: Outcome,
) -> bool {
    let handled = fm is Some && p.error_handler@.len() > 0;
    let failure = if handled && fh is Some {
        Some((fm.unwrap().0, fh.unwrap().1))
    } else {
        fm
    };
    &&& runs(c, None, p.instructions@, tm, fm)
    &&& tm[0].0 == s0 && tm[0].1 == Seq::<Asset>::empty() && tm[0].2 is Some && tm[0].2.unwrap()@ == origin@
    &&& if handled {
        runs(c, register(fm), p.error_handler@, th, fh) && th[0] == tm.last()
    } else {
        th == seq![tm.last()] && fh is None
    }
    &&& runs(c, register(failure), p.appendix@, ta, fa)
    &&& ta[0] == th.last()
    &&& trapped_leftover(ta.last().0, ta.last().1, origin@, sf)
    &&& cost_of_weight(weight_used(r)) == add_cost(
        add_cost(run_weight(c, p.instructions@, fm), if handled {
            run_weight(c, p.error_handler@, fh)
        } else {
            (0, 0)
        }),
        run_weight(c, p.appendix@, fa),
    )
    &&& match failure {
        None => r is Complete,
        Some((i, e)) => r is Incomplete && r->index == i && r->Incomplete_error == e,
    }
}

impl State {
    /// Execute one instruction; returns the weight it used and whether it
    /// succeeded.
    #[verifier::rlimit(100)]
    fn execute_instruction(
        &mut self,
        c: &Config,
        holding: &mut Holding,
        origin: &mut Option<Location>,
        error: Option<XcmError>,
        ins: &Instruction,
    ) -> (r: (Weight, Result<(), XcmError>))
        requires
            old(self).running(old(holding)@),
            old(holding).wf(),
            old(holding)@.len() <= c.max_assets_in_holding,
            fits(cost(*c, *ins)),
        ensures
            final(holding)@.len() <= c.max_assets_in_holding,
            !mints(*ins) && c.fee_destination is Some ==> final(self).issuance == old(self).issuance,
            final(self).running(final(holding)@),
            final(holding).wf(),
            cost_lte(cost_of_weight(r.0), cost(*c, *ins)),
            untrusted_teleport(*c, *old(origin), *ins) ==> r.1 == Err::<(), XcmError>(
                XcmError::UntrustedTeleportLocation,
            ) && *final(self) == *old(self) && *final(holding) == *old(holding),
            r.1 == match step_error(*c, *old(self), old(holding)@, *old(origin), error, *ins) {
                None => Ok(()),
                Some(e) => Err(e),
            },
            r.1 is Err ==> *final(self) == *old(self) && final(holding)@ == old(holding)@ && *final(origin) == *old(origin),
            cost_of_weight(r.0) == step_weight(*c, *ins, r.1 is Ok),
            r.1 is Ok ==> step_effect(*c, *old(self), old(holding)@, *old(origin), error, *ins, *final(self), final(holding)@, *final(origin)),
    {
        let base = c.base_weight;
        match ins {
            Instruction::WithdrawAsset(a) => {
                let res = match &*origin {
                    Some(o) => if holding.assets.len() >= c.max_assets_in_holding {
                        Err(XcmError::HoldingWouldOverflow)
                    } else if self.withdraw_asset(holding, o, *a) {
                        Ok(())
                    } else {
                        Err(XcmError::FailedToTransactAsset)
                    },
                    None => Err(XcmError::BadOrigin),
                };
                (base, res)
            },
            Instruction::ReserveAssetDeposited(a) => {
                let res = match &*origin {
                    Some(o) => if !contains_pair(&c.reserves, a.id, o) {
                        Err(XcmError::UntrustedReserveLocation)
                    } else if holding.assets.len() >= c.max_assets_in_holding {
                        Err(XcmError::HoldingWouldOverflow)
                    } else if self.mint_asset(holding, *a) {
                        Ok(())
                    } else {
                        Err(XcmError::Overflow)
                    },
                    None => Err(XcmError::BadOrigin),
                };
                (base, res)
            },
            Instruction::ReceiveTeleportedAsset(a) => {
                let res = match &*origin {
                    Some(o) => if !contains_pair(&c.teleporters, a.id, o) {
                        Err(XcmError::UntrustedTeleportLocation)
                    } else if holding.assets.len() >= c.max_assets_in_holding {
                        Err(XcmError::HoldingWouldOverflow)
                    } else if self.mint_asset(holding, *a) {
                        Ok(())
                    } else {
                        Err(XcmError::Overflow)
                    },
                    None => Err(XcmError::BadOrigin),
                };
                (base, res)
            },
            Instruction::BuyExecution { fees, weight_limit } => {
                let waived = match &*origin {
                    Some(o) => contains_location(&c.waived_origins, o),
                    None => false,
                };
                if waived {
                    (base, Ok(()))
                } else {
                    (base, self.buy_execution(c, holding, *fees, *weight_limit))
                }
            },
            Instruction::DepositAsset { id, beneficiary } => {
                self.deposit_asset(holding, *id, beneficiary);
                (base, Ok(()))
            },
            Instruction::TransferAsset { asset, beneficiary } => {
                let res = match &*origin {
                    Some(o) => if self.transfer_asset(holding, o, *asset, beneficiary) {
                        Ok(())
                    } else {
                        Err(XcmError::FailedToTransactAsset)
                    },
                    None => Err(XcmError::BadOrigin),
                };
                (base, res)
            },
            Instruction::Transact { origin_kind, require_weight_at_most, call } => {
                let o = match &*origin {
                    Some(o) => o,
                    None => return (base, Err(XcmError::BadOrigin)),
                };
                if !convert_origin(c, o, *origin_kind) {
                    return (base, Err(XcmError::BadOrigin));
                }
                if call.len() > c.max_call_len {
                    return (base, Err(XcmError::NoPermission));
                }
                let call_ref_time = saturating_mul_u64(call.len() as u64, c.call_weight_per_byte);
                if call_ref_time > require_weight_at_most.ref_time {
                    return (base, Err(XcmError::MaxWeightInvalid));
                }
                let record = DispatchedCall { origin: o.duplicate(), kind: *origin_kind, call: call.clone() };
                let ghost before = self.dispatched@;
                self.dispatched.push(record);
                proof {
                    assert(self.dispatched@.drop_last() =~= before);
                }
                (Weight::from_parts(base.ref_time + call_ref_time, base.proof_size), Ok(()))
            },
            Instruction::QueryResponse { query_id, response } => {
                self.query_response(*query_id, *response);
                (base, Ok(()))
            },
            Instruction::ClaimAsset { assets } => {
                let res = match &*origin {
                    Some(o) => if assets.len() > c.max_assets_in_holding - holding.assets.len() {
                        Err(XcmError::HoldingWouldOverflow)
                    } else if self.claim_asset(holding, o, assets) {
                        Ok(())
                    } else {
                        Err(XcmError::UnknownClaim)
                    },
                    None => Err(XcmError::BadOrigin),
                };
                (base, res)
            },
            Instruction::ClearOrigin => {
                *origin = None;
                (base, Ok(()))
            },
            Instruction::ReportError { query_id, destination } => {
                (base, self.report_error(c, holding, error, *query_id, destination))
            },
            Instruction::TransferReserveAsset { asset, dest, beneficiary } => {
                let res = match &*origin {
                    Some(o) => self.transfer_reserve_asset(c, holding, o, *asset, dest, beneficiary),
                    None => Err(XcmError::BadOrigin),
                };
                (base, res)
            },
            Instruction::SubscribeVersion { query_id } => {
                let res = match &*origin {
                    Some(o) => {
                        self.subscribe(o, *query_id);
                        Ok(())
                    },
                    None => Err(XcmError::BadOrigin),
                };
                (base, res)
            },
            Instruction::UnsubscribeVersion => {
                let res = match &*origin {
                    Some(o) => {
                        self.unsubscribe(o);
                        Ok(())
                    },
                    None => Err(XcmError::BadOrigin),
                };
                (base, res)
            },
            Instruction::AliasOrigin(target) => {
                let res = match &*origin {
                    Some(o) => if contains_alias(&c.aliasers, o, target) {
                        *origin = Some(target.duplicate());
                        Ok(())
                    } else {
                        Err(XcmError::NoPermission)
                    },
                    None => Err(XcmError::BadOrigin),
                };
                (base, res)
            },
            Instruction::DescendOrigin(j) => {
                let res = match &*origin {
                    Some(o) => {
                        let mut moved = o.duplicate();
                        moved.push_interior(*j);
                        *origin = Some(moved);
                        Ok(())
                    },
                    None => Err(XcmError::BadOrigin),
                };
                (base, res)
            },
        }
    }

    /// Execute `s` in order up to its first failure; returns the weight used
    /// and the index and error of that failure, if any.
    fn run_sequence(
        &mut self,
        c: &Config,
        holding: &mut Holding,
        origin: &mut Option<Location>,
        error: Option<XcmError>,
        s: &Vec<Instruction>,
    ) -> (r: (Weight, Option<(usize, XcmError)>, Ghost<Seq<Snapshot>>))
        requires
            old(self).running(old(holding)@),
            old(holding).wf(),
            old(holding)@.len() <= c.max_assets_in_holding,
            fits(cost_sum(*c, s@)),
        ensures
            final(holding)@.len() <= c.max_assets_in_holding,
            mints_none(s@) && c.fee_destination is Some ==> final(self).issuance == old(self).issuance,
            final(self).running(final(holding)@),
            final(holding).wf(),
            cost_lte(cost_of_weight(r.0), cost_sum(*c, s@)),
            r.1 is Some ==> r.1.unwrap().0 < s@.len(),
            runs(*c, error, s@, r.2@, r.1),
            cost_of_weight(r.0) == run_weight(*c, s@, r.1),
            r.2@[0] == (*old(self), old(holding)@, *old(origin)),
            r.2@.last() == (*final(self), final(holding)@, *final(origin)),
    {
        let mut used = Weight::zero();
        let mut i: usize = 0;
        let ghost mut tr: Seq<Snapshot> = seq![(*self, holding@, *origin)];
        while i < s.len()
            invariant
                i <= s.len(),
                self.running(holding@),
                holding.wf(),
                holding@.len() <= c.max_assets_in_holding,
                fits(cost_sum(*c, s@)),
                cost_lte(cost_of_weight(used), cost_sum(*c, s@.take(i as int))),
                mints_none(s@) && c.fee_destination is Some ==> self.issuance == old(self).issuance,
                tr.len() == i + 1,
                cost_of_weight(used) == ok_weight(*c, s@, i as nat),
                tr[0] == (*old(self), old(holding)@, *old(origin)),
                tr.last() == (*self, holding@, *origin),
                forall|k: int|
                    #![trigger tr[k]]
                    0 <= k < tr.len() - 1 ==> step_error(*c, tr[k].0, tr[k].1, tr[k].2, error, s@[k]) is None
                        && step_effect(*c, tr[k].0, tr[k].1, tr[k].2, error, s@[k], tr[k + 1].0, tr[k + 1].1, tr[k + 1].2),
            decreases s.len() - i,
        {
            proof {
                lemma_cost_sum_step(*c, s@, i as int);
                lemma_cost_sum_prefix(*c, s@, i as int + 1);
            }
            let (w, res) = self.execute_instruction(c, holding, origin, error, &s[i]);
            used = Weight::from_parts(used.ref_time + w.ref_time, used.proof_size + w.proof_size);
            if let Err(e) = res {
                proof {
                    lemma_cost_sum_prefix(*c, s@, i as int + 1);
                }
                proof {
                    reveal(runs);
                }
                return (used, Some((i, e)), Ghost(tr));
            }
            proof {
                let prev = tr;
                tr = tr.push((*self, holding@, *origin));
                assert forall|k: int|
                    #![trigger tr[k]]
                    0 <= k < tr.len() - 1 implies step_error(*c, tr[k].0, tr[k].1, tr[k].2, error, s@[k]) is None
                        && step_effect(*c, tr[k].0, tr[k].1, tr[k].2, error, s@[k], tr[k + 1].0, tr[k + 1].1, tr[k + 1].2) by {
                    if k < prev.len() - 1 {
                        assert(tr[k] == prev[k]);
                        assert(tr[k + 1] == prev[k + 1]);
                    }
                }
            }
            i = i + 1;
        }
        proof {
            assert(s@.take(i as int) =~= s@);
            reveal(runs);
        }
        (used, None, Ghost(tr))
    }
}

/// Execute `program` on behalf of `origin` within `weight_limit`.
///
/// The program is refused, with nothing changed, unless its version is the
/// configured one, its cost bound fits in a weight and within the limit, and
/// the barrier admits it. Otherwise its instructions run in order until one
/// fails; on failure the error handler runs; the appendix runs in any case,
/// and its own failures do not change the outcome. The error handler and the
/// appendix see the error recorded so far, which `ReportError` sends on.
/// Whatever is left in holding is trapped under `origin`. For an admitted
/// program, `executed` states all of this step by step: the outcome, the
/// weight used, and the final state.
#[verifier::rlimit(100)]
pub fn execute(
    c: &Config,
    state: &mut State,
    origin: &Location,
    program: &Program,
    weight_limit: Weight,
) -> (r: Outcome)
    requires
        old(state).wf(),
    ensures
        final(state).wf(),
        r is Error ==> *final(state) == *old(state),
        (r == Outcome::Error { error: XcmError::UnhandledXcmVersion }) <==> program.version != c.version,
        program.version == c.version ==> ((r == Outcome::Error { error: XcmError::Overweight })
            <==> !fits(program_cost(*c, *program))),
        program.version == c.version && fits(program_cost(*c, *program)) ==> ((r
            == Outcome::Error { error: XcmError::WeightLimitReached }) <==> !cost_lte(
            program_cost(*c, *program),
            cost_of_weight(weight_limit),
        )),
        !(r is Error) <==> admitted(*c, *origin, *program, weight_limit),
        !(r is Error) ==> cost_lte(cost_of_weight(weight_used(r)), program_cost(*c, *program)),
        !(r is Error) ==> weight_used(r).spec_all_lte(weight_limit),
        r is Incomplete ==> r->index < program.instructions@.len(),
        admitted(*c, *origin, *program, weight_limit) ==> exists|
            tm: Seq<Snapshot>,
            fm: Option<(usize, XcmError)>,
            th: Seq<Snapshot>,
            fh: Option<(usize, XcmError)>,
            ta: Seq<Snapshot>,
            fa: Option<(usize, XcmError)>,
        | #[trigger] executed(*c, *old(state), *origin, *program, tm, fm, th, fh, ta, fa, *final(state), r),
        r is Error ==> r == (Outcome::Error { error: XcmError::UnhandledXcmVersion }) || r
            == (Outcome::Error { error: XcmError::Overweight }) || r == (Outcome::Error {
            error: XcmError::WeightLimitReached,
        }) || r == (Outcome::Error { error: XcmError::Barrier }),
        program_mints_none(*program) && c.fee_destination is Some ==> final(state).issuance
            == old(state).issuance,
        program_mints_none(*program) && c.fee_destination is Some ==> forall|id: u64|
            #[trigger] ledger_total(final(state).ledger@, id) + trap_total(final(state).trap@, id)
                == ledger_total(old(state).ledger@, id) + trap_total(old(state).trap@, id),
{
    if program.version != c.version {
        return Outcome::Error { error: XcmError::UnhandledXcmVersion };
    }
    let bound = match weigh_program(c, program) {
        Some(b) => b,
        None => return Outcome::Error { error: XcmError::Overweight },
    };
    if bound.any_gt(&weight_limit) {
        return Outcome::Error { error: XcmError::WeightLimitReached };
    }
    proof {
        assert(bound == bound_weight(program_cost(*c, *program)));
    }
    if !should_execute(&c.barriers, origin, &program.instructions, &bound) {
        return Outcome::Error { error: XcmError::Barrier };
    }
    let mut holding = Holding::new();
    let mut current: Option<Location> = Some(origin.duplicate());
    proof {
        assert(holding@ =~= Seq::<Asset>::empty());
    }
    let (main_used, failure, Ghost(tm)) = state.run_sequence(c, &mut holding, &mut current, None, &program.instructions);
    let ghost mut th: Seq<Snapshot> = seq![tm.last()];
    let ghost mut fh: Option<(usize, XcmError)> = None;
    let mut used = main_used;
    let mut error = failure;
    if let Some((index, failure_error)) = failure {
        if program.error_handler.len() > 0 {
            let (handler_used, handler_failure, Ghost(trace)) = state.run_sequence(
                c,
                &mut holding,
                &mut current,
                Some(failure_error),
                &program.error_handler,
            );
            used = Weight::from_parts(
                used.ref_time + handler_used.ref_time,
                used.proof_size + handler_used.proof_size,
            );
            proof {
                th = trace;
                fh = handler_failure;
            }
            if let Some((_, e)) = handler_failure {
                error = Some((index, e));
            }
        }
    }
    let reg = match error {
        Some((_, e)) => Some(e),
        None => None,
    };
    let (appendix_used, fa, Ghost(ta)) = state.run_sequence(c, &mut holding, &mut current, reg, &program.appendix);
    let ghost sa = *state;
    let ghost ha = holding@;
    used = Weight::from_parts(
        used.ref_time + appendix_used.ref_time,
        used.proof_size + appendix_used.proof_size,
    );
    if !holding.is_empty() {
        let ghost h0 = holding@;
        let ghost t0 = state.trap@;
        let left = holding.take_all();
        state.trap.drop_assets(origin, left);
        proof {
            assert forall|k: u64| #[trigger]
                amount_of(state.issuance@, k) == ledger_total(state.ledger@, k) + trap_total(
                    state.trap@,
                    k,
                ) + amount_of(Seq::<Asset>::empty(), k) by {
                assert(amount_of(state.issuance@, k) == ledger_total(state.ledger@, k) + trap_total(t0, k) + amount_of(h0, k));
            }
        }
    } else {
        proof {
            assert(holding@ =~= Seq::<Asset>::empty());
        }
    }
    proof {
        if program_mints_none(*program) && c.fee_destination is Some {
            assert forall|id: u64| #[trigger]
                ledger_total(state.ledger@, id) + trap_total(state.trap@, id) == ledger_total(
                    old(state).ledger@,
                    id,
                ) + trap_total(old(state).trap@, id) by {
                assert(amount_of(state.issuance@, id) == ledger_total(state.ledger@, id) + trap_total(state.trap@, id) + amount_of(Seq::<Asset>::empty(), id));
                assert(amount_of(old(state).issuance@, id) == ledger_total(old(state).ledger@, id) + trap_total(old(state).trap@, id) + amount_of(Seq::<Asset>::empty(), id));
            }
        }
    }
    let out = match error {
        None => Outcome::Complete { used },
        Some((index, error)) => Outcome::Incomplete { used, error, index },
    };
    proof {
        assert(executed(*c, *old(state), *origin, *program, tm, failure, th, fh, ta, fa, *state, out));
    }
    out
}

} // verus!
