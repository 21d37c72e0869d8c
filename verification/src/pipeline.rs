//! The whole run on one document text: parse, locate the delegations,
//! extract every record, aggregate under the cap, filter and total.
use vstd::prelude::*;

verus! {

use crate::DropError;
use crate::doc::{
    JsonVal, model, parsed_doc, parse_document, get_field, as_array, delegations_of, record_of,
    extract_record,
};
use crate::aggregate::{aggregate, aggregate_records, accts_model, recs_model};
use crate::report::{DropReport, build_report, eligible, sum_amounts};

/// The ghost shapes of a vector of document values.
pub open spec fn vals_model(s: Seq<serde_json::Value>) -> Seq<JsonVal> {
    s.map_values(|v: serde_json::Value| model(v))
}

/// Every record of the list has its two fields as strings and a shares
/// value that parses.
pub open spec fn good_records(items: Seq<JsonVal>) -> bool {
    forall|i: int| 0 <= i < items.len() ==> record_of(#[trigger] items[i]) is Some
}

/// The records of a list in which every record is good.
pub open spec fn records_of(items: Seq<JsonVal>) -> Seq<(Seq<char>, u128)>
    recommends
        good_records(items),
{
    items.map_values(|j: JsonVal| record_of(j).unwrap())
}

/// What a run returns for a document text and a configuration: a parse
/// error on malformed text; a schema error on a missing or malformed
/// delegations list or record; an overflow error on a total past `u128`;
/// otherwise the report of the eligible aggregated accounts, in first-seen
/// order, with their count and sum.
pub open spec fn drop_outcome(
    text: Seq<char>,
    min_staked_amount: u128,
    whale_cap: u128,
    r: Result<DropReport, DropError>,
) -> bool {
    match parsed_doc(text) {
        None => r == Err::<DropReport, DropError>(DropError::Parse),
        Some(j) => match delegations_of(j) {
            None => r == Err::<DropReport, DropError>(DropError::Schema),
            Some(items) => if !good_records(items) {
                r == Err::<DropReport, DropError>(DropError::Schema)
            } else {
                let elig = eligible(aggregate(records_of(items), whale_cap), min_staked_amount);
                if sum_amounts(elig) <= u128::MAX {
                    r matches Ok(rep) && accts_model(rep.rows@) == elig
                        && rep.total_drop_count == elig.len() && rep.total_drop_amount as int
                        == sum_amounts(elig)
                } else {
                    r == Err::<DropReport, DropError>(DropError::Overflow)
                }
            },
        },
    }
}

/// Reads every delegation record of the list, in order; the first missing
/// or mistyped record fails the whole extraction.
pub fn extract_records(items: &Vec<serde_json::Value>) -> (r: Result<
    Vec<(String, u128)>,
    DropError,
>)
    ensures
        good_records(vals_model(items@)) ==> (r matches Ok(v) && recs_model(v@) == records_of(
            vals_model(items@),
        )),
        !good_records(vals_model(items@)) ==> r == Err::<Vec<(String, u128)>, DropError>(
            DropError::Schema,
        ),
{
    let n = items.len();
    let mut out: Vec<(String, u128)> = Vec::new();
    let mut i: usize = 0;
    proof {
        assert(recs_model(out@) =~= records_of(vals_model(items@).take(0)));
    }
    while i < n
        invariant
            i <= n,
            n == items@.len(),
            forall|k: int| 0 <= k < i ==> record_of(#[trigger] vals_model(items@)[k]) is Some,
            recs_model(out@) == records_of(vals_model(items@).take(i as int)),
        decreases n - i,
    {
        match extract_record(&items[i]) {
            Ok(p) => {
                let ghost prev = out@;
                let ghost pv: (Seq<char>, u128) = (p.0@, p.1);
                out.push(p);
                proof {
                    let im = vals_model(items@);
                    assert(recs_model(prev).len() == prev.len());
                    assert(prev.len() == i);
                    assert(model(items@[i as int]) == im[i as int]);
                    assert(record_of(im[i as int]) is Some);
                    assert forall|k: int| 0 <= k < i + 1 implies recs_model(out@)[k]
                        == records_of(im.take(i + 1))[k] by {
                        assert(im.take(i + 1)[k] == im[k]);
                        if k < i {
                            assert(out@[k] == prev[k]);
                            assert(recs_model(prev)[k] == records_of(im.take(i as int))[k]);
                            assert(im.take(i as int)[k] == im[k]);
                        } else {
                            assert(out@[k].0@ == pv.0 && out@[k].1 == pv.1);
                            let sp = record_of(im[k]).unwrap();
                            assert(pv.0 == sp.0 && pv.1 == sp.1);
                        }
                    }
                    assert(recs_model(out@) =~= records_of(im.take(i + 1)));
                }
            },
            Err(_) => {
                proof {
                    assert(record_of(vals_model(items@)[i as int]) is None);
                }
                return Err(DropError::Schema);
            },
        }
        i = i + 1;
    }
    proof {
        assert(vals_model(items@).take(n as int) =~= vals_model(items@));
    }
    Ok(out)
}

/// Runs the whole computation on the export document's text.
pub fn compute_drop(text: &str, min_staked_amount: u128, whale_cap: u128) -> (r: Result<
    DropReport,
    DropError,
>)
    ensures
        drop_outcome(text@, min_staked_amount, whale_cap, r),
{
    let v = match parse_document(text) {
        Ok(v) => v,
        Err(_) => {
            return Err(DropError::Parse);
        },
    };
    let st = match get_field(&v, "app_state") {
        Some(f) => f,
        None => {
            return Err(DropError::Schema);
        },
    };
    let sk = match get_field(st, "staking") {
        Some(f) => f,
        None => {
            return Err(DropError::Schema);
        },
    };
    let dl = match get_field(sk, "delegations") {
        Some(f) => f,
        None => {
            return Err(DropError::Schema);
        },
    };
    let items = match as_array(dl) {
        Some(a) => a,
        None => {
            return Err(DropError::Schema);
        },
    };
    proof {
        assert(vals_model(items@) =~= delegations_of(parsed_doc(text@).unwrap()).unwrap());
    }
    let recs = match extract_records(items) {
        Ok(r) => r,
        Err(e) => {
            return Err(e);
        },
    };
    let accounts = aggregate_records(&recs, whale_cap);
    build_report(accounts, min_staked_amount)
}

} // verus!
