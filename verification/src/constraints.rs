//! The cost envelope: accumulated routing cost along a (partial) route.
//!
//! An envelope grows monotonically as a route extends: path length, base fee
//! and time-lock delta add up, while the minimum-forwardable amount is a
//! bottleneck constraint and so takes the maximum across the path. The
//! bounding comparison used for pruning is deliberately not an order: an
//! envelope exceeds another as soon as any single field is strictly greater.

use vstd::prelude::*;

use crate::graph::{BlindedPath, BlindedPathView, NodePolicy, NodePolicyView};
use crate::parse::{digits_value, lemma_digits_value_nonneg, parse_decimal, parses_to_u64};

verus! {

/// Accumulated routing cost of a route, or the advertised target.
/// Invariant of every envelope the engine builds: the path length counts the
/// introduction node, so it is at least one.
#[derive(PartialEq, Eq, Structural, Clone, Copy, Debug)]
pub struct Constraints {
    pub path_length: u32,
    pub fee_base_msat: u64,
    pub htlc_minimum_msat: u64,
    pub cltv_expiry_delta: u32,
}

/// Mathematical model of a cost envelope.
pub ghost struct Envelope {
    pub path_length: nat,
    pub fee_base_msat: nat,
    pub htlc_minimum_msat: nat,
    pub cltv_expiry_delta: nat,
}

impl View for Constraints {
    type V = Envelope;

    open spec fn view(&self) -> Envelope {
        Envelope {
            path_length: self.path_length as nat,
            fee_base_msat: self.fee_base_msat as nat,
            htlc_minimum_msat: self.htlc_minimum_msat as nat,
            cltv_expiry_delta: self.cltv_expiry_delta as nat,
        }
    }
}

/// The envelope of a route that holds only the introduction node: one hop,
/// no cost accumulated yet.
pub open spec fn identity_envelope() -> Envelope {
    Envelope { path_length: 1, fee_base_msat: 0, htlc_minimum_msat: 0, cltv_expiry_delta: 0 }
}

/// Accumulation of two envelopes: lengths, fees and time-lock deltas add;
/// the minimum-forwardable amount is the larger of the two, since the
/// bottleneck along a path is its largest per-hop minimum.
pub open spec fn accumulate_envelopes(a: Envelope, b: Envelope) -> Envelope {
    Envelope {
        path_length: a.path_length + b.path_length,
        fee_base_msat: a.fee_base_msat + b.fee_base_msat,
        htlc_minimum_msat: if a.htlc_minimum_msat >= b.htlc_minimum_msat {
            a.htlc_minimum_msat
        } else {
            b.htlc_minimum_msat
        },
        cltv_expiry_delta: a.cltv_expiry_delta + b.cltv_expiry_delta,
    }
}

/// The bounding comparison used for pruning: `a` exceeds `b` as soon as any
/// single field of `a` is strictly greater than the same field of `b`. The
/// all-equal case does not exceed. This per-field check is not transitive and
/// is not an order; it only answers whether a partial route has already broken
/// the budget in at least one dimension.
pub open spec fn envelope_exceeds(a: Envelope, b: Envelope) -> bool {
    a.path_length > b.path_length || a.fee_base_msat > b.fee_base_msat
        || a.htlc_minimum_msat > b.htlc_minimum_msat || a.cltv_expiry_delta > b.cltv_expiry_delta
}

/// `e` with one more hop on its path length and all cost fields unchanged.
pub open spec fn with_extra_hop(e: Envelope) -> Envelope {
    Envelope {
        path_length: e.path_length + 1,
        fee_base_msat: e.fee_base_msat,
        htlc_minimum_msat: e.htlc_minimum_msat,
        cltv_expiry_delta: e.cltv_expiry_delta,
    }
}

/// Accumulation of cost envelopes is associative.
pub proof fn lemma_accumulate_associative(a: Envelope, b: Envelope, c: Envelope)
    ensures
        accumulate_envelopes(accumulate_envelopes(a, b), c) == accumulate_envelopes(
            a,
            accumulate_envelopes(b, c),
        ),
{
}

/// The identity envelope is a left and a right identity for accumulation on
/// every cost field; only the path length grows, by the identity's one hop.
/// In particular, accumulating the identity envelope with itself yields a
/// path length of two, not one.
pub proof fn lemma_identity_accumulate(e: Envelope)
    ensures
        accumulate_envelopes(identity_envelope(), e) == with_extra_hop(e),
        accumulate_envelopes(e, identity_envelope()) == with_extra_hop(e),
        accumulate_envelopes(identity_envelope(), identity_envelope()).path_length == 2,
{
}

/// All three field-wise sums of an accumulation stay within their machine types.
pub open spec fn accumulation_fits(a: Envelope, b: Envelope) -> bool {
    a.path_length + b.path_length <= u32::MAX && a.fee_base_msat + b.fee_base_msat <= u64::MAX
        && a.cltv_expiry_delta + b.cltv_expiry_delta <= u32::MAX
}

impl Constraints {
    /// Accumulate another envelope onto this one.
    pub fn accumulate(&self, other: &Constraints) -> (r: Constraints)
        requires
            accumulation_fits(self@, other@),
        ensures
            r@ == accumulate_envelopes(self@, other@),
    {
        Constraints {
            path_length: self.path_length + other.path_length,
            fee_base_msat: self.fee_base_msat + other.fee_base_msat,
            htlc_minimum_msat: if self.htlc_minimum_msat >= other.htlc_minimum_msat {
                self.htlc_minimum_msat
            } else {
                other.htlc_minimum_msat
            },
            cltv_expiry_delta: self.cltv_expiry_delta + other.cltv_expiry_delta,
        }
    }

    /// Accumulate another envelope onto this one, reporting `None` when a
    /// field-wise sum would not fit its machine type.
    pub fn checked_accumulate(&self, other: &Constraints) -> (r: Option<Constraints>)
        ensures
            match r {
                Some(c) => accumulation_fits(self@, other@) && c@ == accumulate_envelopes(
                    self@,
                    other@,
                ),
                None => !accumulation_fits(self@, other@),
            },
    {
        let path_length = match self.path_length.checked_add(other.path_length) {
            Some(v) => v,
            None => return None,
        };
        let fee_base_msat = match self.fee_base_msat.checked_add(other.fee_base_msat) {
            Some(v) => v,
            None => return None,
        };
        let cltv_expiry_delta = match self.cltv_expiry_delta.checked_add(other.cltv_expiry_delta) {
            Some(v) => v,
            None => return None,
        };
        Some(
            Constraints {
                path_length,
                fee_base_msat,
                htlc_minimum_msat: if self.htlc_minimum_msat >= other.htlc_minimum_msat {
                    self.htlc_minimum_msat
                } else {
                    other.htlc_minimum_msat
                },
                cltv_expiry_delta,
            },
        )
    }

    /// The bounding comparison used for pruning: true when any field of `self` is
    /// strictly greater than the same field of `other`.
    pub fn exceeds(&self, other: &Constraints) -> (r: bool)
        ensures
            r == envelope_exceeds(self@, other@),
    {
        self.path_length > other.path_length || self.fee_base_msat > other.fee_base_msat
            || self.htlc_minimum_msat > other.htlc_minimum_msat || self.cltv_expiry_delta
            > other.cltv_expiry_delta
    }
}

impl Default for Constraints {
    /// The identity envelope: a fresh route holds one node and no cost.
    fn default() -> (c: Self)
        ensures
            c@ == identity_envelope(),
    {
        Constraints { path_length: 1, fee_base_msat: 0, htlc_minimum_msat: 0, cltv_expiry_delta: 0 }
    }
}

/// An error of the enumeration engine.
#[derive(Clone, Copy, Debug, PartialEq, Eq, Structural)]
pub enum EnumerationError {
    /// A forwarding policy the search had to read carries a cost field that
    /// is not a decimal number fitting in 64 bits.
    MalformedPolicy,
}

/// Both numeric-string cost fields of a policy are well-formed decimals.
pub open spec fn policy_parses(p: NodePolicyView) -> bool {
    parses_to_u64(p.fee_base_msat) && parses_to_u64(p.min_htlc)
}

/// The per-hop cost envelope a forwarding policy contributes, meaningful
/// when `policy_parses` holds of the policy.
pub open spec fn policy_envelope(p: NodePolicyView) -> Envelope {
    Envelope {
        path_length: 1,
        fee_base_msat: digits_value(p.fee_base_msat) as nat,
        htlc_minimum_msat: digits_value(p.min_htlc) as nat,
        cltv_expiry_delta: p.time_lock_delta,
    }
}

/// Derive the per-hop envelope of a forwarding policy: one hop, the base fee
/// and the minimum amount parsed from their string fields, the time-lock
/// delta taken directly. Fails exactly when a numeric-string field is
/// malformed, which is fatal for the branch being explored.
pub fn get_constraints_from_node_policy(node_policy: &NodePolicy) -> (r: Result<
    Constraints,
    EnumerationError,
>)
    ensures
        r is Ok <==> policy_parses(node_policy@),
        r matches Ok(c) ==> c@ == policy_envelope(node_policy@),
        r matches Err(e) ==> e == EnumerationError::MalformedPolicy,
{
    let fee_base_msat = match parse_decimal(node_policy.fee_base_msat.as_str()) {
        Some(v) => v,
        None => return Err(EnumerationError::MalformedPolicy),
    };
    let htlc_minimum_msat = match parse_decimal(node_policy.min_htlc.as_str()) {
        Some(v) => v,
        None => return Err(EnumerationError::MalformedPolicy),
    };
    proof {
        lemma_digits_value_nonneg(node_policy.fee_base_msat@);
        lemma_digits_value_nonneg(node_policy.min_htlc@);
    }
    Ok(
        Constraints {
            path_length: 1,
            fee_base_msat,
            htlc_minimum_msat,
            cltv_expiry_delta: node_policy.time_lock_delta,
        },
    )
}

/// The target envelope an advertised blinded path describes: its path length
/// counts the introduction node and every blinded placeholder; the cost
/// fields are copied directly.
pub open spec fn blinded_path_envelope(bp: BlindedPathView) -> Envelope {
    Envelope {
        path_length: bp.blinded_nodes.len() + 1,
        fee_base_msat: bp.fee_base_msat,
        htlc_minimum_msat: bp.htlc_minimum_msat,
        cltv_expiry_delta: bp.cltv_expiry_delta,
    }
}

/// Derive the advertised target envelope from a blinded-path descriptor.
pub fn get_constraints_from_blinded_path(blinded_path: &BlindedPath) -> (r: Constraints)
    requires
        blinded_path.blinded_nodes@.len() + 1 <= u32::MAX,
    ensures
        r@ == blinded_path_envelope(blinded_path@),
{
    Constraints {
        path_length: blinded_path.blinded_nodes.len() as u32 + 1,
        fee_base_msat: blinded_path.fee_base_msat,
        htlc_minimum_msat: blinded_path.htlc_minimum_msat,
        cltv_expiry_delta: blinded_path.cltv_expiry_delta,
    }
}

} // verus!
