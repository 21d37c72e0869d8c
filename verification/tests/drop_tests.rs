use dao_drop::DropError;
use dao_drop::digits::{amount_string, parse_shares};
use dao_drop::pipeline::compute_drop;
use dao_drop::report::DropReport;

const DEFAULT_MIN: u128 = 1000000;
const DEFAULT_CAP: u128 = 100000000000000000;

fn doc(delegations: &str) -> String {
    format!(
        r#"{{"app_state":{{"staking":{{"delegations":[{}]}},"other":1}},"bank":{{}}}}"#,
        delegations
    )
}

fn rec(address: &str, shares: &str) -> String {
    format!(
        r#"{{"delegator_address":"{}","shares":"{}","validator_address":"v"}}"#,
        address, shares
    )
}

fn run(delegations: &[(&str, &str)], min: u128, cap: u128) -> Result<DropReport, DropError> {
    let body = delegations
        .iter()
        .map(|(a, s)| rec(a, s))
        .collect::<Vec<_>>()
        .join(",");
    compute_drop(&doc(&body), min, cap)
}

#[test]
fn truncation_not_rounding() {
    assert_eq!(parse_shares("12345.999"), Ok(12345));
}

#[test]
fn no_decimal_point_case() {
    assert_eq!(parse_shares("500"), Ok(500));
}

#[test]
fn shares_rejects_bad_shapes() {
    assert_eq!(parse_shares(""), Err(DropError::Schema));
    assert_eq!(parse_shares(".5"), Err(DropError::Schema));
    assert_eq!(parse_shares("12a4"), Err(DropError::Schema));
    assert_eq!(parse_shares("-5"), Err(DropError::Schema));
    // One past u128::MAX does not fit.
    assert_eq!(
        parse_shares("340282366920938463463374607431768211456"),
        Err(DropError::Schema)
    );
    // u128::MAX itself does.
    assert_eq!(
        parse_shares("340282366920938463463374607431768211455"),
        Ok(u128::MAX)
    );
}

#[test]
fn end_to_end_example() {
    let rep = run(
        &[("A", "3000000.5"), ("B", "999999.0")],
        DEFAULT_MIN,
        DEFAULT_CAP,
    )
    .unwrap();
    assert_eq!(rep.rows.len(), 1);
    assert_eq!(rep.rows[0].address, "A");
    assert_eq!(rep.rows[0].amount, 3000000);
    assert_eq!(rep.total_drop_count, 1);
    assert_eq!(rep.total_drop_amount, 3000000);
    let rows = rep.rendered_rows();
    assert_eq!(rows.len(), 1);
    assert_eq!(rows[0].0, "A");
    assert_eq!(rows[0].1, "3000000");
}

#[test]
fn aggregation_sums_across_validators() {
    let rep = run(&[("A", "1000.5"), ("A", "2000.25"), ("A", "4000")], 0, DEFAULT_CAP).unwrap();
    assert_eq!(rep.rows.len(), 1);
    assert_eq!(rep.rows[0].amount, 7000);
    assert_eq!(rep.total_drop_amount, 7000);
}

#[test]
fn whale_cap_example() {
    let rep = run(
        &[("C", "60000000000000000"), ("C", "70000000000000000")],
        DEFAULT_MIN,
        DEFAULT_CAP,
    )
    .unwrap();
    assert_eq!(rep.rows.len(), 1);
    assert_eq!(rep.rows[0].address, "C");
    assert_eq!(rep.rows[0].amount, 100000000000000000);
    assert_eq!(rep.total_drop_amount, 100000000000000000);
}

#[test]
fn cap_holds_after_later_additions() {
    let rep = run(
        &[
            ("C", "60000000000000000"),
            ("C", "70000000000000000"),
            ("C", "1"),
        ],
        DEFAULT_MIN,
        DEFAULT_CAP,
    )
    .unwrap();
    assert_eq!(rep.rows[0].amount, 100000000000000000);
}

#[test]
fn strict_threshold_excludes_equal() {
    // Exactly the minimum is excluded; one unit above is included.
    let rep = run(&[("A", "1000000"), ("B", "1000001")], DEFAULT_MIN, DEFAULT_CAP).unwrap();
    assert_eq!(rep.rows.len(), 1);
    assert_eq!(rep.rows[0].address, "B");
    assert_eq!(rep.total_drop_count, 1);
    assert_eq!(rep.total_drop_amount, 1000001);
}

#[test]
fn totals_match_rows() {
    let rep = run(
        &[("A", "2000000"), ("B", "3000000.9"), ("C", "5")],
        DEFAULT_MIN,
        DEFAULT_CAP,
    )
    .unwrap();
    assert_eq!(rep.rows.len(), 2);
    let sum: u128 = rep.rows.iter().map(|r| r.amount).sum();
    assert_eq!(rep.total_drop_amount, sum);
    assert_eq!(rep.total_drop_count, rep.rows.len());
    assert_eq!(rep.total_drop_amount, 5000000);
}

#[test]
fn missing_field_failure() {
    let body = format!(r#"{{"shares":"100"}},{}"#, rec("A", "2000000"));
    let res = compute_drop(&doc(&body), DEFAULT_MIN, DEFAULT_CAP);
    assert_eq!(res.err(), Some(DropError::Schema));
}

#[test]
fn missing_shares_failure() {
    let res = compute_drop(
        &doc(r#"{"delegator_address":"A"}"#),
        DEFAULT_MIN,
        DEFAULT_CAP,
    );
    assert_eq!(res.err(), Some(DropError::Schema));
}

#[test]
fn shares_not_a_string_failure() {
    let res = compute_drop(
        &doc(r#"{"delegator_address":"A","shares":100}"#),
        DEFAULT_MIN,
        DEFAULT_CAP,
    );
    assert_eq!(res.err(), Some(DropError::Schema));
}

#[test]
fn malformed_document_failure() {
    let res = compute_drop("{not json", DEFAULT_MIN, DEFAULT_CAP);
    assert_eq!(res.err(), Some(DropError::Parse));
}

#[test]
fn missing_delegations_failure() {
    let res = compute_drop(r#"{"app_state":{"staking":{}}}"#, DEFAULT_MIN, DEFAULT_CAP);
    assert_eq!(res.err(), Some(DropError::Schema));
    let res = compute_drop(r#"{"app_state":{}}"#, DEFAULT_MIN, DEFAULT_CAP);
    assert_eq!(res.err(), Some(DropError::Schema));
    let res = compute_drop(r#"{}"#, DEFAULT_MIN, DEFAULT_CAP);
    assert_eq!(res.err(), Some(DropError::Schema));
    let res = compute_drop(
        r#"{"app_state":{"staking":{"delegations":{}}}}"#,
        DEFAULT_MIN,
        DEFAULT_CAP,
    );
    assert_eq!(res.err(), Some(DropError::Schema));
}

#[test]
fn empty_delegations_gives_empty_report() {
    let rep = compute_drop(&doc(""), DEFAULT_MIN, DEFAULT_CAP).unwrap();
    assert_eq!(rep.rows.len(), 0);
    assert_eq!(rep.total_drop_count, 0);
    assert_eq!(rep.total_drop_amount, 0);
}

#[test]
fn total_overflow_failure() {
    // Two uncapped accounts at u128::MAX each: the total cannot be held.
    let max = "340282366920938463463374607431768211455";
    let res = run(&[("A", max), ("B", max)], 0, u128::MAX);
    assert_eq!(res.err(), Some(DropError::Overflow));
}

#[test]
fn first_delegation_is_not_capped() {
    // A single delegation is inserted as it stands; the cap clamps only
    // additions to an existing account.
    let rep = run(&[("A", "200000000000000000")], DEFAULT_MIN, DEFAULT_CAP).unwrap();
    assert_eq!(rep.rows[0].amount, 200000000000000000);
}

#[test]
fn amount_rendering() {
    assert_eq!(amount_string(0), "0");
    assert_eq!(amount_string(7), "7");
    assert_eq!(amount_string(1000001), "1000001");
    assert_eq!(
        amount_string(u128::MAX),
        "340282366920938463463374607431768211455"
    );
}

#[test]
fn row_order_is_first_seen() {
    let rep = run(
        &[("B", "2000000"), ("A", "3000000"), ("B", "1000000")],
        DEFAULT_MIN,
        DEFAULT_CAP,
    )
    .unwrap();
    assert_eq!(rep.rows[0].address, "B");
    assert_eq!(rep.rows[0].amount, 3000000);
    assert_eq!(rep.rows[1].address, "A");
    assert_eq!(rep.rows[1].amount, 3000000);
}
