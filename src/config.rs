//! The executor's policies, given as data: admission rules, trusted reserves
//! and teleporters, costs, fee prices and the fee destination, and the call
//! filter. Also the weigher, which bounds a program's cost before it runs.

use vstd::prelude::*;
use crate::asset::Asset;
use crate::location::{Location, LocationView};
use crate::program::{Instruction, Program};
use crate::weight::Weight;

verus! {

/// An asset class and a location trusted for it.
#[derive(Debug)]
pub struct TrustedPair {
    pub id: u64,
    pub location: Location,
}

/// A destination that messages can be sent to, and the fee for delivering
/// one there.
#[derive(Debug)]
pub struct Route {
    pub destination: Location,
    pub fee: Asset,
}

/// An origin and a location it may act as.
#[derive(Debug)]
pub struct AliasPair {
    pub origin: Location,
    pub target: Location,
}

/// The price of execution in one asset class: units per unit of `ref_time`.
#[derive(Clone, Copy, Debug, PartialEq, Eq, Structural)]
pub struct FeeRate {
    pub id: u64,
    pub per_ref_time: u128,
}

/// One admission rule.
#[derive(Debug)]
pub enum BarrierRule {
    /// Admit any program from this origin.
    AllowUnpaidFrom(Location),
    /// Admit a program that first puts an asset into holding and then buys
    /// execution for at least its whole cost bound.
    AllowPaidExecution,
}

#[derive(Debug)]
pub struct Config {
    /// The protocol version executed here.
    pub version: u8,
    /// Admission rules, tried in order; the first that admits wins.
    pub barriers: Vec<BarrierRule>,
    /// (class, location) pairs whose reserve deposits are accepted.
    pub reserves: Vec<TrustedPair>,
    /// (class, location) pairs whose teleports are accepted.
    pub teleporters: Vec<TrustedPair>,
    /// The cost of every instruction; `Transact` adds the cost it declares.
    pub base_weight: Weight,
    /// (origin, target) pairs: the origin may continue as the target.
    pub aliasers: Vec<AliasPair>,
    /// Origins that may dispatch calls with superuser authority.
    pub superusers: Vec<Location>,
    /// Origins whose execution is free.
    pub waived_origins: Vec<Location>,
    /// Execution prices, the first entry for a class applying.
    pub fee_rates: Vec<FeeRate>,
    /// The account fees go to; `None` burns them.
    pub fee_destination: Option<Location>,
    /// The most asset classes holding may contain.
    pub max_assets_in_holding: usize,
    /// Where messages can be sent, and at what delivery fee.
    pub routes: Vec<Route>,
    /// The longest call `Transact` may dispatch.
    pub max_call_len: usize,
    /// The computation cost of one byte of a dispatched call.
    pub call_weight_per_byte: u64,
}

/// Whether `pairs` trusts `location` for class `id`.
pub open spec fn trusts(pairs: Seq<TrustedPair>, id: u64, location: LocationView) -> bool {
    exists|k: int| 0 <= k < pairs.len() && (#[trigger] pairs[k]).id == id && pairs[k].location@ == location
}

/// Whether `pairs` trusts `location` for class `id`.
pub fn contains_pair(pairs: &Vec<TrustedPair>, id: u64, location: &Location) -> (r: bool)
    ensures
        r == trusts(pairs@, id, location@),
{
    let mut i: usize = 0;
    while i < pairs.len()
        invariant
            i <= pairs.len(),
            forall|k: int| 0 <= k < i ==> !((#[trigger] pairs@[k]).id == id && pairs@[k].location@ == location@),
        decreases pairs.len() - i,
    {
        if pairs[i].id == id && pairs[i].location.same_as(location) {
            return true;
        }
        i = i + 1;
    }
    false
}

/// Whether `pairs` lets `origin` continue as `target`.
pub open spec fn may_alias(pairs: Seq<AliasPair>, origin: LocationView, target: LocationView) -> bool {
    exists|k: int| 0 <= k < pairs.len() && (#[trigger] pairs[k]).origin@ == origin && pairs[k].target@ == target
}

pub fn contains_alias(pairs: &Vec<AliasPair>, origin: &Location, target: &Location) -> (r: bool)
    ensures
        r == may_alias(pairs@, origin@, target@),
{
    let mut i: usize = 0;
    while i < pairs.len()
        invariant
            i <= pairs.len(),
            forall|k: int| 0 <= k < i ==> !((#[trigger] pairs@[k]).origin@ == origin@ && pairs@[k].target@ == target@),
        decreases pairs.len() - i,
    {
        if pairs[i].origin.same_as(origin) && pairs[i].target.same_as(target) {
            return true;
        }
        i = i + 1;
    }
    false
}

/// Whether `origin` is among `list`.
pub open spec fn listed(list: Seq<Location>, origin: LocationView) -> bool {
    exists|k: int| 0 <= k < list.len() && (#[trigger] list[k])@ == origin
}

pub fn contains_location(list: &Vec<Location>, origin: &Location) -> (r: bool)
    ensures
        r == listed(list@, origin@),
{
    let mut i: usize = 0;
    while i < list.len()
        invariant
            i <= list.len(),
            forall|k: int| 0 <= k < i ==> (#[trigger] list@[k])@ != origin@,
        decreases list.len() - i,
    {
        if list[i].same_as(origin) {
            return true;
        }
        i = i + 1;
    }
    false
}

/// The price per unit of `ref_time` in class `id`: the first matching rate.
pub open spec fn rate_of(rates: Seq<FeeRate>, id: u64) -> Option<u128>
    decreases rates.len(),
{
    if rates.len() == 0 {
        None
    } else if rates[0].id == id {
        Some(rates[0].per_ref_time)
    } else {
        rate_of(rates.drop_first(), id)
    }
}

pub fn find_rate(rates: &Vec<FeeRate>, id: u64) -> (r: Option<u128>)
    ensures
        r == rate_of(rates@, id),
{
    let mut i: usize = 0;
    proof {
        assert(rates@.skip(0) =~= rates@);
    }
    while i < rates.len()
        invariant
            i <= rates.len(),
            rate_of(rates@, id) == rate_of(rates@.skip(i as int), id),
        decreases rates.len() - i,
    {
        proof {
            assert(rates@.skip(i as int).drop_first() =~= rates@.skip(i as int + 1));
        }
        if rates[i].id == id {
            return Some(rates[i].per_ref_time);
        }
        i = i + 1;
    }
    proof {
        assert(rates@.skip(i as int).len() == 0);
    }
    None
}

/// An unbounded cost: computation and proof size.
pub type Cost = (nat, nat);

pub open spec fn add_cost(a: Cost, b: Cost) -> Cost {
    (a.0 + b.0, a.1 + b.1)
}

/// A cost that a `Weight` can hold.
pub open spec fn fits(a: Cost) -> bool {
    a.0 <= u64::MAX && a.1 <= u64::MAX
}

/// `w`, as an unbounded cost.
pub open spec fn cost_of_weight(w: Weight) -> Cost {
    (w.ref_time as nat, w.proof_size as nat)
}

/// `a` does not exceed `b` in either component.
pub open spec fn cost_lte(a: Cost, b: Cost) -> bool {
    a.0 <= b.0 && a.1 <= b.1
}

/// The cost bound of one instruction.
pub open spec fn cost(c: Config, ins: Instruction) -> Cost {
    match ins {
        Instruction::Transact { require_weight_at_most, .. } => add_cost(
            cost_of_weight(c.base_weight),
            cost_of_weight(require_weight_at_most),
        ),
        _ => cost_of_weight(c.base_weight),
    }
}

/// The cost bound of a sequence of instructions.
pub open spec fn cost_sum(c: Config, s: Seq<Instruction>) -> Cost
    decreases s.len(),
{
    if s.len() == 0 {
        (0, 0)
    } else {
        add_cost(cost_sum(c, s.drop_last()), cost(c, s.last()))
    }
}

/// The cost bound of a program: its instructions, error handler and appendix.
pub open spec fn program_cost(c: Config, p: Program) -> Cost {
    add_cost(
        add_cost(cost_sum(c, p.instructions@), cost_sum(c, p.error_handler@)),
        cost_sum(c, p.appendix@),
    )
}

pub proof fn lemma_cost_sum_prefix(c: Config, s: Seq<Instruction>, i: int)
    requires
        0 <= i <= s.len(),
    ensures
        cost_lte(cost_sum(c, s.take(i)), cost_sum(c, s)),
    decreases s.len(),
{
    if i == s.len() {
        assert(s.take(i) =~= s);
    } else {
        assert(s.take(i) =~= s.drop_last().take(i));
        lemma_cost_sum_prefix(c, s.drop_last(), i);
    }
}

pub proof fn lemma_cost_sum_step(c: Config, s: Seq<Instruction>, i: int)
    requires
        0 <= i < s.len(),
    ensures
        cost_sum(c, s.take(i + 1)) == add_cost(cost_sum(c, s.take(i)), cost(c, s[i])),
{
    assert(s.take(i + 1).drop_last() =~= s.take(i));
}

/// The cost bound of one instruction, or `None` when it does not fit.
pub fn weigh_instruction(c: &Config, ins: &Instruction) -> (r: Option<Weight>)
    ensures
        r.is_some() == fits(cost(*c, *ins)),
        r.is_some() ==> cost_of_weight(r.unwrap()) == cost(*c, *ins),
{
    match ins {
        Instruction::Transact { require_weight_at_most, .. } => c.base_weight.checked_add(
            *require_weight_at_most,
        ),
        _ => Some(c.base_weight),
    }
}

/// The cost bound of a sequence, or `None` when it does not fit.
pub fn weigh(c: &Config, s: &Vec<Instruction>) -> (r: Option<Weight>)
    ensures
        r.is_some() == fits(cost_sum(*c, s@)),
        r.is_some() ==> cost_of_weight(r.unwrap()) == cost_sum(*c, s@),
{
    let mut total = Weight::zero();
    let mut i: usize = 0;
    while i < s.len()
        invariant
            i <= s.len(),
            cost_of_weight(total) == cost_sum(*c, s@.take(i as int)),
        decreases s.len() - i,
    {
        proof {
            lemma_cost_sum_step(*c, s@, i as int);
            lemma_cost_sum_prefix(*c, s@, i as int + 1);
        }
        let w = match weigh_instruction(c, &s[i]) {
            Some(w) => w,
            None => return None,
        };
        total = match total.checked_add(w) {
            Some(t) => t,
            None => return None,
        };
        i = i + 1;
    }
    proof {
        assert(s@.take(i as int) =~= s@);
    }
    Some(total)
}

/// The cost bound of a program, or `None` when it does not fit.
pub fn weigh_program(c: &Config, p: &Program) -> (r: Option<Weight>)
    ensures
        r.is_some() == fits(program_cost(*c, *p)),
        r.is_some() ==> cost_of_weight(r.unwrap()) == program_cost(*c, *p),
{
    let main = match weigh(c, &p.instructions) {
        Some(w) => w,
        None => return None,
    };
    let handler = match weigh(c, &p.error_handler) {
        Some(w) => w,
        None => return None,
    };
    let appendix = match weigh(c, &p.appendix) {
        Some(w) => w,
        None => return None,
    };
    match main.checked_add(handler) {
        Some(w) => w.checked_add(appendix),
        None => None,
    }
}

/// Whether `rule` admits `program` from `origin`, given its cost bound.
pub open spec fn rule_allows(
    rule: BarrierRule,
    origin: LocationView,
    program: Seq<Instruction>,
    bound: Weight,
) -> bool {
    match rule {
        BarrierRule::AllowUnpaidFrom(l) => l@ == origin,
        BarrierRule::AllowPaidExecution => program.len() >= 2 && is_funding(program[0])
            && match program[1] {
            Instruction::BuyExecution { weight_limit, .. } => bound.spec_all_lte(weight_limit),
            _ => false,
        },
    }
}

/// An instruction that puts assets into holding.
pub open spec fn is_funding(ins: Instruction) -> bool {
    ins is WithdrawAsset || ins is ReserveAssetDeposited || ins is ReceiveTeleportedAsset
}

/// Whether some rule admits the program.
pub open spec fn barrier_allows(
    rules: Seq<BarrierRule>,
    origin: LocationView,
    program: Seq<Instruction>,
    bound: Weight,
) -> bool {
    exists|k: int| 0 <= k < rules.len() && rule_allows(#[trigger] rules[k], origin, program, bound)
}

fn rule_admits(rule: &BarrierRule, origin: &Location, program: &Vec<Instruction>, bound: &Weight) -> (r: bool)
    ensures
        r == rule_allows(*rule, origin@, program@, *bound),
{
    match rule {
        BarrierRule::AllowUnpaidFrom(l) => l.same_as(origin),
        BarrierRule::AllowPaidExecution => {
            if program.len() < 2 {
                return false;
            }
            let funded = match &program[0] {
                Instruction::WithdrawAsset(_) => true,
                Instruction::ReserveAssetDeposited(_) => true,
                Instruction::ReceiveTeleportedAsset(_) => true,
                _ => false,
            };
            if !funded {
                return false;
            }
            match &program[1] {
                Instruction::BuyExecution { weight_limit, .. } => bound.all_lte(weight_limit),
                _ => false,
            }
        },
    }
}

/// Try the rules in order; true as soon as one admits the program.
pub fn should_execute(rules: &Vec<BarrierRule>, origin: &Location, program: &Vec<Instruction>, bound: &Weight) -> (r: bool)
    ensures
        r == barrier_allows(rules@, origin@, program@, *bound),
{
    let mut i: usize = 0;
    while i < rules.len()
        invariant
            i <= rules.len(),
            forall|k: int| 0 <= k < i ==> !rule_allows(#[trigger] rules@[k], origin@, program@, *bound),
        decreases rules.len() - i,
    {
        if rule_admits(&rules[i], origin, program, bound) {
            return true;
        }
        i = i + 1;
    }
    false
}

} // verus!
