//! The eligibility filter and the report: accounts strictly above the
//! minimum staked amount make a row each, and the totals sum exactly what
//! the rows say.
use vstd::prelude::*;

verus! {

use crate::DropError;
use crate::aggregate::{Account, accts_model};
use crate::digits::{dec_str, amount_string};

/// The pairs strictly above `min`, in order: a pair at exactly `min` is
/// excluded by design.
pub open spec fn eligible(s: Seq<(Seq<char>, u128)>, min: u128) -> Seq<(Seq<char>, u128)>
    decreases s.len(),
{
    if s.len() == 0 {
        Seq::empty()
    } else {
        let rest = eligible(s.drop_last(), min);
        if s.last().1 > min {
            rest.push(s.last())
        } else {
            rest
        }
    }
}

/// The sum of the amounts of the pairs.
pub open spec fn sum_amounts(s: Seq<(Seq<char>, u128)>) -> int
    decreases s.len(),
{
    if s.len() == 0 {
        0
    } else {
        sum_amounts(s.drop_last()) + s.last().1
    }
}

/// The eligible part of a prefix never sums to more than the eligible part
/// of the whole.
pub proof fn lemma_sum_eligible_prefix(s: Seq<(Seq<char>, u128)>, min: u128, j: int)
    requires
        0 <= j <= s.len(),
    ensures
        sum_amounts(eligible(s.take(j), min)) <= sum_amounts(eligible(s, min)),
    decreases s.len(),
{
    if j == s.len() {
        assert(s.take(j) =~= s);
    } else {
        assert(s.drop_last().take(j) =~= s.take(j));
        lemma_sum_eligible_prefix(s.drop_last(), min, j);
        let rest = eligible(s.drop_last(), min);
        if s.last().1 > min {
            assert(eligible(s, min) == rest.push(s.last()));
            assert(rest.push(s.last()).drop_last() =~= rest);
            assert(rest.push(s.last()).last() == s.last());
        }
    }
}

/// Strict threshold: a pair is kept exactly when its amount is strictly
/// above the minimum, so an amount equal to the minimum is excluded and one
/// unit above it is included.
pub proof fn lemma_eligible_membership(s: Seq<(Seq<char>, u128)>, min: u128, p: (Seq<char>, u128))
    ensures
        eligible(s, min).contains(p) <==> s.contains(p) && p.1 > min,
    decreases s.len(),
{
    if s.len() == 0 {
    } else {
        lemma_eligible_membership(s.drop_last(), min, p);
        let rest = eligible(s.drop_last(), min);
        if s.last().1 > min {
            assert(eligible(s, min) == rest.push(s.last()));
            if rest.push(s.last()).contains(p) {
                let w = choose|i: int|
                    0 <= i < rest.push(s.last()).len() && rest.push(s.last())[i] == p;
                if w < rest.len() {
                    assert(rest.contains(p));
                }
            }
            if rest.contains(p) {
                let w = choose|i: int| 0 <= i < rest.len() && rest[i] == p;
                assert(rest.push(s.last())[w] == p);
            }
            if p == s.last() {
                assert(rest.push(s.last())[rest.len() as int] == p);
            }
        }
        if s.drop_last().contains(p) {
            let w = choose|i: int| 0 <= i < s.drop_last().len() && s.drop_last()[i] == p;
            assert(s[w] == p);
        }
        if s.contains(p) {
            let w = choose|i: int| 0 <= i < s.len() && s[i] == p;
            if w < s.len() - 1 {
                assert(s.drop_last()[w] == p);
                assert(s.drop_last().contains(p));
            } else {
                assert(p == s.last());
            }
        }
    }
}

/// The completed drop report: the eligible accounts in first-seen order,
/// with the row count and the summed drop amount.
pub struct DropReport {
    pub rows: Vec<Account>,
    pub total_drop_count: usize,
    pub total_drop_amount: u128,
}

impl DropReport {
    /// The rows as strings: each eligible address beside its amount in base
    /// ten, in row order, ready to be written out.
    pub fn rendered_rows(&self) -> (rows: Vec<(String, String)>)
        ensures
            rows@.len() == self.rows@.len(),
            forall|i: int|
                0 <= i < rows@.len() ==> (#[trigger] rows@[i]).0@ == self.rows@[i].address@
                    && rows@[i].1@ == dec_str(self.rows@[i].amount as nat),
    {
        let n = self.rows.len();
        let mut rows: Vec<(String, String)> = Vec::new();
        let mut i: usize = 0;
        while i < n
            invariant
                i <= n,
                n == self.rows@.len(),
                rows@.len() == i,
                forall|k: int|
                    0 <= k < i ==> (#[trigger] rows@[k]).0@ == self.rows@[k].address@
                        && rows@[k].1@ == dec_str(self.rows@[k].amount as nat),
            decreases n - i,
        {
            rows.push((self.rows[i].address.clone(), amount_string(self.rows[i].amount)));
            i = i + 1;
        }
        rows
    }
}

/// Filters the accounts by the strict minimum and totals what is kept: the
/// report's rows are exactly the eligible accounts, its count is their
/// number, and its total is their sum; a total past `u128` is an error.
pub fn build_report(accounts: Vec<Account>, min_staked_amount: u128) -> (r: Result<
    DropReport,
    DropError,
>)
    ensures
        r is Ok <==> sum_amounts(eligible(accts_model(accounts@), min_staked_amount))
            <= u128::MAX,
        r matches Ok(rep) ==> accts_model(rep.rows@) == eligible(
            accts_model(accounts@),
            min_staked_amount,
        ) && rep.total_drop_count == rep.rows@.len() && rep.total_drop_amount as int
            == sum_amounts(accts_model(rep.rows@)),
        r is Err ==> r == Err::<DropReport, DropError>(DropError::Overflow),
{
    let n = accounts.len();
    let mut rows: Vec<Account> = Vec::new();
    let mut total: u128 = 0;
    let mut i: usize = 0;
    proof {
        assert(accts_model(rows@) =~= eligible(
            accts_model(accounts@).take(0),
            min_staked_amount,
        ));
        assert(accts_model(rows@) =~= accts_model(rows@).take(accts_model(rows@).len() as int));
    }
    while i < n
        invariant
            i <= n,
            n == accounts@.len(),
            accts_model(rows@) == eligible(accts_model(accounts@).take(i as int), min_staked_amount),
            total as int == sum_amounts(accts_model(rows@)),
        decreases n - i,
    {
        let ghost prefix = accts_model(accounts@).take(i as int);
        let ghost next = accts_model(accounts@).take(i + 1);
        proof {
            assert(next.drop_last() =~= prefix);
            assert(next.last() == accts_model(accounts@)[i as int]);
        }
        if accounts[i].amount > min_staked_amount {
            let ghost before = accts_model(rows@);
            match total.checked_add(accounts[i].amount) {
                Some(t) => {
                    total = t;
                },
                None => {
                    proof {
                        assert(sum_amounts(eligible(next, min_staked_amount)) > u128::MAX) by {
                            assert(eligible(next, min_staked_amount).drop_last() =~= before);
                        }
                        lemma_sum_eligible_prefix(
                            accts_model(accounts@),
                            min_staked_amount,
                            i + 1,
                        );
                    }
                    return Err(DropError::Overflow);
                },
            }
            let kept = accounts[i].address.clone();
            rows.push(Account { address: kept, amount: accounts[i].amount });
            proof {
                assert(accts_model(rows@) =~= eligible(next, min_staked_amount)) by {
                    assert(accts_model(rows@) =~= before.push(next.last()));
                    assert(eligible(next, min_staked_amount) =~= before.push(next.last()));
                }
                assert(accts_model(rows@).drop_last() =~= before);
            }
        } else {
            proof {
                assert(eligible(next, min_staked_amount) =~= accts_model(rows@));
            }
        }
        i = i + 1;
    }
    proof {
        assert(accts_model(accounts@).take(n as int) =~= accts_model(accounts@));
    }
    let count = rows.len();
    Ok(DropReport { rows, total_drop_count: count, total_drop_amount: total })
}

} // verus!
