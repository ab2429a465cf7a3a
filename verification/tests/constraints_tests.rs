use pathbreaker::constraints::{
    get_constraints_from_blinded_path, get_constraints_from_node_policy, Constraints,
    EnumerationError,
};
use pathbreaker::graph::{BlindedPath, NodePolicy};
use pathbreaker::parse::parse_decimal;

fn policy(fee_base_msat: &str, min_htlc: &str, time_lock_delta: u32) -> NodePolicy {
    NodePolicy {
        time_lock_delta,
        min_htlc: min_htlc.to_string(),
        fee_base_msat: fee_base_msat.to_string(),
        fee_rate_milli_msat: "1".to_string(),
        disabled: false,
        max_htlc_msat: "100000000".to_string(),
        last_update: 0,
    }
}

#[test]
fn test_constraint_ordering() {
    let constraint1 = Constraints {
        path_length: 3,
        fee_base_msat: 2000,
        htlc_minimum_msat: 1000,
        cltv_expiry_delta: 160,
    };
    let constraint2 = Constraints {
        path_length: 4,
        fee_base_msat: 2500,
        htlc_minimum_msat: 1000,
        cltv_expiry_delta: 150,
    };

    assert!(constraint1.exceeds(&constraint2));
}

#[test]
fn equal_envelopes_do_not_exceed() {
    let c = Constraints {
        path_length: 2,
        fee_base_msat: 500,
        htlc_minimum_msat: 700,
        cltv_expiry_delta: 40,
    };
    assert!(!c.exceeds(&c));
}

#[test]
fn accumulate_adds_fees_and_takes_max_minimum() {
    let a = Constraints {
        path_length: 2,
        fee_base_msat: 1000,
        htlc_minimum_msat: 1500,
        cltv_expiry_delta: 40,
    };
    let b = Constraints {
        path_length: 1,
        fee_base_msat: 250,
        htlc_minimum_msat: 900,
        cltv_expiry_delta: 30,
    };
    let s = a.accumulate(&b);
    assert_eq!(s.path_length, 3);
    assert_eq!(s.fee_base_msat, 1250);
    assert_eq!(s.htlc_minimum_msat, 1500);
    assert_eq!(s.cltv_expiry_delta, 70);
}

#[test]
fn identity_accumulated_with_itself_has_path_length_two() {
    let identity = Constraints::default();
    let s = identity.accumulate(&identity);
    assert_eq!(s.path_length, 2);
    assert_eq!(s.fee_base_msat, 0);
    assert_eq!(s.htlc_minimum_msat, 0);
    assert_eq!(s.cltv_expiry_delta, 0);
}

#[test]
fn checked_accumulate_reports_overflow() {
    let a = Constraints {
        path_length: u32::MAX,
        fee_base_msat: 0,
        htlc_minimum_msat: 0,
        cltv_expiry_delta: 0,
    };
    let b = Constraints::default();
    assert!(a.checked_accumulate(&b).is_none());
    let ok = b.checked_accumulate(&b).unwrap();
    assert_eq!(ok.path_length, 2);
}

#[test]
fn parse_decimal_accepts_digits_only() {
    assert_eq!(parse_decimal("0"), Some(0));
    assert_eq!(parse_decimal("18446744073709551615"), Some(u64::MAX));
    assert_eq!(parse_decimal("1500"), Some(1500));
    assert_eq!(parse_decimal(""), None);
    assert_eq!(parse_decimal("12x4"), None);
    assert_eq!(parse_decimal("-5"), None);
    assert_eq!(parse_decimal("18446744073709551616"), None);
}

#[test]
fn policy_envelope_parses_numeric_fields() {
    let p = policy("2000", "1500", 80);
    let c = get_constraints_from_node_policy(&p).unwrap();
    assert_eq!(c.path_length, 1);
    assert_eq!(c.fee_base_msat, 2000);
    assert_eq!(c.htlc_minimum_msat, 1500);
    assert_eq!(c.cltv_expiry_delta, 80);
}

#[test]
fn malformed_policy_field_is_an_error() {
    let p = policy("20a0", "1500", 80);
    assert_eq!(
        get_constraints_from_node_policy(&p),
        Err(EnumerationError::MalformedPolicy)
    );
    let q = policy("2000", "", 80);
    assert_eq!(
        get_constraints_from_node_policy(&q),
        Err(EnumerationError::MalformedPolicy)
    );
}

#[test]
fn blinded_path_envelope_counts_the_introduction_node() {
    let bp = BlindedPath {
        introduction_node: "alpha".to_string(),
        blinded_nodes: vec!["b1".to_string(), "b2".to_string()],
        fee_base_msat: 2000,
        fee_proportional_millionths: 1,
        htlc_minimum_msat: 1500,
        cltv_expiry_delta: 80,
        max_cltv_expiry: 200,
    };
    let c = get_constraints_from_blinded_path(&bp);
    assert_eq!(c.path_length, 3);
    assert_eq!(c.fee_base_msat, 2000);
    assert_eq!(c.htlc_minimum_msat, 1500);
    assert_eq!(c.cltv_expiry_delta, 80);
}
