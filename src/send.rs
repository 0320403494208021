//! Sending programs: a side-effect-free validation that yields a ticket with
//! the encoded message and its delivery fee, and a delivery that consumes the
//! ticket.

use vstd::prelude::*;
use crate::asset::Asset;
use crate::codec::{encode_program, program_enc};
use crate::config::{Config, Route};
use crate::location::{Location, LocationView};
use crate::program::{Program, XcmError};

verus! {

/// The delivery fee to `dest`: that of the first route leading there.
pub open spec fn route_fee(routes: Seq<Route>, dest: LocationView) -> Option<Asset>
    decreases routes.len(),
{
    if routes.len() == 0 {
        None
    } else if routes[0].destination@ == dest {
        Some(routes[0].fee)
    } else {
        route_fee(routes.drop_first(), dest)
    }
}

/// A validated delivery: where it goes, the message, and what delivering it
/// costs. Delivering consumes it.
#[derive(Debug)]
pub struct SendTicket {
    pub destination: Location,
    pub message: Vec<u8>,
    pub fee: Asset,
}

fn find_route(routes: &Vec<Route>, dest: &Location) -> (r: Option<Asset>)
    ensures
        r == route_fee(routes@, dest@),
{
    let mut i: usize = 0;
    proof {
        assert(routes@.skip(0) =~= routes@);
    }
    while i < routes.len()
        invariant
            i <= routes.len(),
            route_fee(routes@, dest@) == route_fee(routes@.skip(i as int), dest@),
        decreases routes.len() - i,
    {
        proof {
            assert(routes@.skip(i as int).drop_first() =~= routes@.skip(i as int + 1));
        }
        if routes[i].destination.same_as(dest) {
            return Some(routes[i].fee);
        }
        i = i + 1;
    }
    None
}

/// Prepare sending `message` to `dest`. Changes nothing; fails with
/// `Unroutable` exactly when no route leads to `dest`.
pub fn validate_send(c: &Config, dest: &Location, message: &Program) -> (r: Result<SendTicket, XcmError>)
    ensures
        r is Err <==> route_fee(c.routes@, dest@) is None,
        r is Err ==> r == Err::<SendTicket, XcmError>(XcmError::Unroutable),
        r is Ok ==> r.unwrap().destination@ == dest@ && r.unwrap().message@ == program_enc(*message)
            && Some(r.unwrap().fee) == route_fee(c.routes@, dest@),
{
    match find_route(&c.routes, dest) {
        None => Err(XcmError::Unroutable),
        Some(fee) => Ok(SendTicket { destination: dest.duplicate(), message: encode_program(message), fee }),
    }
}

} // verus!
