//! Per-address aggregation of delegation records under a whale cap: a first
//! delegation opens an account, later ones add to it, and every addition is
//! clamped down to the cap.
use vstd::prelude::*;

verus! {

/// One account receiving the drop: a delegator address and its summed,
/// cap-bounded amount of whole shares units.
pub struct Account {
    pub address: String,
    pub amount: u128,
}

/// The ghost pair of one account.
pub open spec fn acct_model(a: Account) -> (Seq<char>, u128) {
    (a.address@, a.amount)
}

/// The ghost pairs of a sequence of accounts.
pub open spec fn accts_model(s: Seq<Account>) -> Seq<(Seq<char>, u128)> {
    s.map_values(|a: Account| acct_model(a))
}

/// The ghost pairs of a sequence of extracted records.
pub open spec fn recs_model(s: Seq<(String, u128)>) -> Seq<(Seq<char>, u128)> {
    s.map_values(|p: (String, u128)| (p.0@, p.1))
}

/// The index of the first pair whose address is `a`, or `-1` if none is.
pub open spec fn find_addr(s: Seq<(Seq<char>, u128)>, a: Seq<char>) -> int
    decreases s.len(),
{
    if s.len() == 0 {
        -1
    } else if s[0].0 == a {
        0
    } else {
        let r = find_addr(s.drop_first(), a);
        if r < 0 {
            -1
        } else {
            1 + r
        }
    }
}

/// An addition under the cap: the true sum while it stays within `cap`,
/// exactly `cap` from the moment it would pass it.
pub open spec fn add_capped(amount: u128, x: u128, cap: u128) -> u128 {
    if amount + x > cap {
        cap
    } else {
        (amount + x) as u128
    }
}

/// One record folded into the accounts: a new entry for a first-seen
/// address, else an addition under the cap to the existing entry.
pub open spec fn agg_step(s: Seq<(Seq<char>, u128)>, a: Seq<char>, x: u128, cap: u128) -> Seq<
    (Seq<char>, u128),
> {
    let i = find_addr(s, a);
    if i < 0 {
        s.push((a, x))
    } else {
        s.update(i, (a, add_capped(s[i].1, x, cap)))
    }
}

/// All records folded in, in the order the document presents them.
pub open spec fn aggregate(recs: Seq<(Seq<char>, u128)>, cap: u128) -> Seq<(Seq<char>, u128)>
    decreases recs.len(),
{
    if recs.len() == 0 {
        Seq::empty()
    } else {
        agg_step(aggregate(recs.drop_last(), cap), recs.last().0, recs.last().1, cap)
    }
}

/// `find_addr` points at a pair with the address, and nothing before it has
/// the address; `-1` means nothing does at all.
pub proof fn lemma_find_addr(s: Seq<(Seq<char>, u128)>, a: Seq<char>)
    ensures
        find_addr(s, a) == -1 ==> forall|j: int| 0 <= j < s.len() ==> (#[trigger] s[j]).0 != a,
        find_addr(s, a) != -1 ==> 0 <= find_addr(s, a) < s.len() && s[find_addr(s, a)].0 == a
            && forall|j: int| 0 <= j < find_addr(s, a) ==> (#[trigger] s[j]).0 != a,
    decreases s.len(),
{
    if s.len() == 0 {
    } else if s[0].0 == a {
    } else {
        lemma_find_addr(s.drop_first(), a);
        assert forall|j: int| 1 <= j < s.len() implies s.drop_first()[j - 1] == s[j] by {}
    }
}

/// A position with the address, and only other addresses before it, is what
/// `find_addr` returns; a full scan without the address means `-1`.
pub proof fn lemma_find_addr_at(s: Seq<(Seq<char>, u128)>, a: Seq<char>, i: int)
    requires
        0 <= i <= s.len(),
        forall|j: int| 0 <= j < i ==> (#[trigger] s[j]).0 != a,
        i < s.len() ==> s[i].0 == a,
    ensures
        i < s.len() ==> find_addr(s, a) == i,
        i == s.len() ==> find_addr(s, a) == -1,
    decreases s.len(),
{
    if s.len() == 0 {
    } else if s[0].0 == a {
        assert(i == 0);
    } else {
        assert(s[0].0 != a);
        assert(i != 0);
        assert forall|j: int| 0 <= j < i - 1 implies (#[trigger] s.drop_first()[j]).0 != a by {
            assert(s.drop_first()[j] == s[j + 1]);
        }
        if i - 1 < s.drop_first().len() {
            assert(s.drop_first()[i - 1] == s[i]);
        }
        lemma_find_addr_at(s.drop_first(), a, i - 1);
    }
}

/// The amount an account sequence holds for address `a`, if any does.
pub open spec fn amount_of(s: Seq<(Seq<char>, u128)>, a: Seq<char>) -> Option<u128> {
    let i = find_addr(s, a);
    if i >= 0 {
        Some(s[i].1)
    } else {
        None
    }
}

/// Some record carries address `a`.
pub open spec fn has_addr(s: Seq<(Seq<char>, u128)>, a: Seq<char>) -> bool {
    exists|i: int| 0 <= i < s.len() && (#[trigger] s[i]).0 == a
}

/// The sum of the truncated shares of the records carrying address `a`.
pub open spec fn sum_for(recs: Seq<(Seq<char>, u128)>, a: Seq<char>) -> nat
    decreases recs.len(),
{
    if recs.len() == 0 {
        0
    } else {
        sum_for(recs.drop_last(), a) + if recs.last().0 == a {
            recs.last().1 as nat
        } else {
            0
        }
    }
}

/// Records without address `a` contribute nothing to its sum.
pub proof fn lemma_sum_for_absent(recs: Seq<(Seq<char>, u128)>, a: Seq<char>)
    requires
        !has_addr(recs, a),
    ensures
        sum_for(recs, a) == 0,
    decreases recs.len(),
{
    if recs.len() > 0 {
        assert(recs.last() == recs[recs.len() - 1]);
        assert forall|j: int| 0 <= j < recs.len() - 1 implies (#[trigger] recs.drop_last()[j]).0
            != a by {
            assert(recs.drop_last()[j] == recs[j]);
        }
        lemma_sum_for_absent(recs.drop_last(), a);
    }
}

/// Two sequences with the same addresses position by position are scanned
/// alike.
pub proof fn lemma_find_addr_same_keys(
    s: Seq<(Seq<char>, u128)>,
    t: Seq<(Seq<char>, u128)>,
    a: Seq<char>,
)
    requires
        s.len() == t.len(),
        forall|j: int| 0 <= j < s.len() ==> (#[trigger] s[j]).0 == t[j].0,
    ensures
        find_addr(s, a) == find_addr(t, a),
    decreases s.len(),
{
    if s.len() > 0 {
        assert forall|j: int| 0 <= j < s.len() - 1 implies (#[trigger] s.drop_first()[j]).0
            == t.drop_first()[j].0 by {
            assert(s.drop_first()[j] == s[j + 1]);
            assert(t.drop_first()[j] == t[j + 1]);
        }
        lemma_find_addr_same_keys(s.drop_first(), t.drop_first(), a);
    }
}

/// Scans for the account with `addr`, front to back.
fn find_account(accounts: &Vec<Account>, addr: &String) -> (r: Option<usize>)
    ensures
        match r {
            Some(i) => i < accounts@.len() && find_addr(accts_model(accounts@), addr@) == i,
            None => find_addr(accts_model(accounts@), addr@) == -1,
        },
{
    let n = accounts.len();
    let mut j: usize = 0;
    while j < n
        invariant
            j <= n,
            n == accounts@.len(),
            forall|k: int| 0 <= k < j ==> (#[trigger] accts_model(accounts@)[k]).0 != addr@,
        decreases n - j,
    {
        if accounts[j].address == *addr {
            proof {
                lemma_find_addr_at(accts_model(accounts@), addr@, j as int);
            }
            return Some(j);
        }
        j = j + 1;
    }
    proof {
        lemma_find_addr_at(accts_model(accounts@), addr@, n as int);
    }
    None
}

/// The capped addition, executable: `checked_add` stands in for the true
/// sum, and an overflowing sum is already past any cap.
fn add_amount_capped(amount: u128, x: u128, cap: u128) -> (r: u128)
    ensures
        r == add_capped(amount, x, cap),
{
    match amount.checked_add(x) {
        Some(s) => if s > cap {
            cap
        } else {
            s
        },
        None => cap,
    }
}

/// Folds the extracted records into accounts, in order: a record for a new
/// address opens an account with the record's amount as it stands; a record
/// for a known address adds to it under the cap.
pub fn aggregate_records(recs: &Vec<(String, u128)>, whale_cap: u128) -> (accounts: Vec<Account>)
    ensures
        accts_model(accounts@) == aggregate(recs_model(recs@), whale_cap),
{
    let n = recs.len();
    let mut accounts: Vec<Account> = Vec::new();
    let mut i: usize = 0;
    proof {
        assert(accts_model(accounts@) =~= aggregate(recs_model(recs@).take(0), whale_cap));
    }
    while i < n
        invariant
            i <= n,
            n == recs@.len(),
            accts_model(accounts@) == aggregate(recs_model(recs@).take(i as int), whale_cap),
        decreases n - i,
    {
        let ghost prefix = recs_model(recs@).take(i as int);
        let ghost next = recs_model(recs@).take(i + 1);
        proof {
            assert(next.drop_last() =~= prefix);
            assert(next.last() == recs_model(recs@)[i as int]);
        }
        let ghost before = accts_model(accounts@);
        let addr = &recs[i].0;
        let x = recs[i].1;
        match find_account(&accounts, addr) {
            Some(idx) => {
                proof {
                    lemma_find_addr(before, addr@);
                }
                let capped = add_amount_capped(accounts[idx].amount, x, whale_cap);
                let kept = accounts[idx].address.clone();
                accounts[idx] = Account { address: kept, amount: capped };
                proof {
                    assert(accts_model(accounts@) =~= agg_step(before, addr@, x, whale_cap));
                }
            },
            None => {
                accounts.push(Account { address: addr.clone(), amount: x });
                proof {
                    assert(accts_model(accounts@) =~= agg_step(before, addr@, x, whale_cap));
                }
            },
        }
        i = i + 1;
    }
    proof {
        assert(recs_model(recs@).take(n as int) =~= recs_model(recs@));
    }
    accounts
}

/// The value of one account after a run of additions, each under the cap.
pub open spec fn apply_additions(init: u128, adds: Seq<u128>, cap: u128) -> u128
    decreases adds.len(),
{
    if adds.len() == 0 {
        init
    } else {
        add_capped(apply_additions(init, adds.drop_last(), cap), adds.last(), cap)
    }
}

/// Cap invariant: whatever an account held at first, after every addition
/// its amount is at most the whale cap — and once clamped there, no run of
/// further additions can carry it past the cap again.
pub proof fn lemma_cap_invariant(init: u128, adds: Seq<u128>, cap: u128)
    ensures
        forall|k: int|
            1 <= k <= adds.len() ==> apply_additions(init, #[trigger] adds.take(k), cap) <= cap,
{
    assert forall|k: int|
        1 <= k <= adds.len() implies apply_additions(init, #[trigger] adds.take(k), cap)
        <= cap by {
        assert(adds.take(k).len() == k);
    }
}

/// Address `a` is carried by at least two records, so the account for it
/// has seen at least one addition.
pub open spec fn added_twice(recs: Seq<(Seq<char>, u128)>, a: Seq<char>) -> bool {
    exists|i: int, j: int|
        0 <= i < j < recs.len() && (#[trigger] recs[i]).0 == a && (#[trigger] recs[j]).0 == a
}

/// The cap holds in the aggregation itself: an account that has seen an
/// addition holds at most the whale cap, however large the records were.
/// Applied to any prefix of the records, this bounds the account at every
/// observation point after its first addition.
pub proof fn lemma_aggregate_capped(recs: Seq<(Seq<char>, u128)>, a: Seq<char>, cap: u128)
    requires
        added_twice(recs, a),
    ensures
        find_addr(aggregate(recs, cap), a) >= 0,
        aggregate(recs, cap)[find_addr(aggregate(recs, cap), a)].1 <= cap,
    decreases recs.len(),
{
    let prev = recs.drop_last();
    let b = recs.last().0;
    let x = recs.last().1;
    let agg_prev = aggregate(prev, cap);
    let agg = aggregate(recs, cap);
    assert(agg == agg_step(agg_prev, b, x, cap));
    lemma_find_addr(agg_prev, a);
    lemma_find_addr(agg_prev, b);
    let ib = find_addr(agg_prev, b);
    let (wi, wj) = choose|i: int, j: int|
        0 <= i < j < recs.len() && (#[trigger] recs[i]).0 == a && (#[trigger] recs[j]).0 == a;
    if b == a {
        assert(recs[wi] == prev[wi]);
        assert(has_addr(prev, a));
        lemma_aggregate_exhaustive(prev, cap);
        assert(ib >= 0);
        assert(agg == agg_prev.update(ib, (a, add_capped(agg_prev[ib].1, x, cap))));
        assert forall|j: int| 0 <= j < agg.len() implies (#[trigger] agg_prev[j]).0 == agg[j].0 by {}
        lemma_find_addr_same_keys(agg_prev, agg, a);
        assert(agg[ib].1 <= cap);
    } else {
        assert(recs[wj].0 == a && wj < recs.len());
        assert(wj != recs.len() - 1);
        assert(prev[wi] == recs[wi] && prev[wj] == recs[wj]);
        assert(added_twice(prev, a));
        lemma_aggregate_capped(prev, a, cap);
        let ia = find_addr(agg_prev, a);
        if ib >= 0 {
            assert(agg == agg_prev.update(ib, (b, add_capped(agg_prev[ib].1, x, cap))));
            assert forall|j: int| 0 <= j < agg.len() implies (#[trigger] agg_prev[j]).0
                == agg[j].0 by {}
            lemma_find_addr_same_keys(agg_prev, agg, a);
            assert(agg_prev[ia].0 == a && agg_prev[ib].0 == b);
            assert(ia != ib);
            assert(agg[ia] == agg_prev[ia]);
        } else {
            assert(agg == agg_prev.push((b, x)));
            assert forall|j: int| 0 <= j < ia implies (#[trigger] agg[j]).0 != a by {
                assert(agg[j] == agg_prev[j]);
            }
            assert(agg[ia] == agg_prev[ia]);
            lemma_find_addr_at(agg, a, ia);
        }
    }
}

/// Every address some record carries has an account after aggregation, and
/// only those do.
pub proof fn lemma_aggregate_exhaustive(recs: Seq<(Seq<char>, u128)>, cap: u128)
    ensures
        forall|a: Seq<char>|
            #[trigger] find_addr(aggregate(recs, cap), a) >= 0 <==> has_addr(recs, a),
    decreases recs.len(),
{
    if recs.len() == 0 {
        assert forall|a: Seq<char>| #[trigger] find_addr(aggregate(recs, cap), a) < 0 by {
            lemma_find_addr(aggregate(recs, cap), a);
        }
        assert forall|a: Seq<char>| !has_addr(recs, a) by {}
    } else {
        let prev = recs.drop_last();
        let b = recs.last().0;
        let x = recs.last().1;
        let agg_prev = aggregate(prev, cap);
        let agg = aggregate(recs, cap);
        assert(agg == agg_step(agg_prev, b, x, cap));
        lemma_aggregate_exhaustive(prev, cap);
        assert forall|a: Seq<char>|
            #[trigger] find_addr(agg, a) >= 0 <==> has_addr(recs, a) by {
            lemma_find_addr(agg_prev, a);
            lemma_find_addr(agg_prev, b);
            lemma_find_addr(agg, a);
            let ib = find_addr(agg_prev, b);
            let ia = find_addr(agg_prev, a);
            if ib >= 0 {
                assert forall|j: int| 0 <= j < agg.len() implies (#[trigger] agg_prev[j]).0
                    == agg[j].0 by {}
                lemma_find_addr_same_keys(agg_prev, agg, a);
            } else {
                assert(agg == agg_prev.push((b, x)));
                if ia >= 0 {
                    assert forall|j: int| 0 <= j < ia implies (#[trigger] agg[j]).0 != a by {
                        assert(agg[j] == agg_prev[j]);
                    }
                    assert(agg[ia] == agg_prev[ia]);
                    lemma_find_addr_at(agg, a, ia);
                } else if a == b {
                    assert(agg[agg.len() - 1].0 == a);
                } else {
                    assert forall|j: int| 0 <= j < agg.len() implies (#[trigger] agg[j]).0
                        != a by {
                        if j < agg_prev.len() {
                            assert(agg[j] == agg_prev[j]);
                        }
                    }
                    lemma_find_addr_at(agg, a, agg.len() as int);
                }
            }
            if has_addr(recs, a) {
                let w = choose|i: int| 0 <= i < recs.len() && (#[trigger] recs[i]).0 == a;
                if w < recs.len() - 1 {
                    assert(prev[w] == recs[w]);
                    assert(has_addr(prev, a));
                } else {
                    assert(a == b);
                }
            }
            if has_addr(prev, a) {
                let w = choose|i: int| 0 <= i < prev.len() && (#[trigger] prev[i]).0 == a;
                assert(recs[w] == prev[w]);
                assert(has_addr(recs, a));
            }
        }
    }
}

/// Aggregation sums correctly: as long as the records' total for an address
/// stays within the cap, the aggregated account for that address holds
/// exactly the sum of its records' truncated shares values — and an address
/// no record carries gets no account.
pub proof fn lemma_aggregate_sums(recs: Seq<(Seq<char>, u128)>, a: Seq<char>, cap: u128)
    requires
        sum_for(recs, a) <= cap,
    ensures
        has_addr(recs, a) ==> amount_of(aggregate(recs, cap), a) == Some(sum_for(recs, a) as u128),
        !has_addr(recs, a) ==> amount_of(aggregate(recs, cap), a) is None,
    decreases recs.len(),
{
    if recs.len() == 0 {
    } else {
        let prev = recs.drop_last();
        let b = recs.last().0;
        let x = recs.last().1;
        let agg_prev = aggregate(prev, cap);
        let agg = aggregate(recs, cap);
        assert(agg == agg_step(agg_prev, b, x, cap));
        lemma_aggregate_sums(prev, a, cap);
        lemma_find_addr(agg_prev, a);
        lemma_find_addr(agg_prev, b);
        let ib = find_addr(agg_prev, b);
        if b == a {
            assert(sum_for(recs, a) == sum_for(prev, a) + x);
            if has_addr(prev, a) {
                assert(ib >= 0);
                assert(agg_prev[ib].1 == sum_for(prev, a));
                assert(agg == agg_prev.update(ib, (a, add_capped(sum_for(prev, a) as u128, x, cap))));
                assert(add_capped(sum_for(prev, a) as u128, x, cap) == sum_for(recs, a) as u128);
                assert forall|j: int| 0 <= j < agg.len() implies (#[trigger] agg_prev[j]).0
                    == agg[j].0 by {}
                lemma_find_addr_same_keys(agg_prev, agg, a);
                assert(has_addr(recs, a));
            } else {
                assert(ib == -1);
                assert(agg == agg_prev.push((a, x)));
                lemma_sum_for_absent(prev, a);
                assert forall|j: int| 0 <= j < agg_prev.len() implies (#[trigger] agg[j]).0
                    != a by {
                    assert(agg[j] == agg_prev[j]);
                }
                lemma_find_addr_at(agg, a, agg_prev.len() as int);
                assert(agg[agg_prev.len() as int].1 == x);
                assert(recs[recs.len() - 1].0 == a);
                assert(has_addr(recs, a));
            }
        } else {
            assert(sum_for(recs, a) == sum_for(prev, a));
            assert(has_addr(recs, a) == has_addr(prev, a)) by {
                if has_addr(recs, a) {
                    let w = choose|i: int| 0 <= i < recs.len() && (#[trigger] recs[i]).0 == a;
                    assert(w < recs.len() - 1);
                    assert(prev[w] == recs[w]);
                    assert(has_addr(prev, a));
                }
                if has_addr(prev, a) {
                    let w = choose|i: int| 0 <= i < prev.len() && (#[trigger] prev[i]).0 == a;
                    assert(recs[w] == prev[w]);
                    assert(has_addr(recs, a));
                }
            }
            if ib >= 0 {
                assert(agg == agg_prev.update(ib, (b, add_capped(agg_prev[ib].1, x, cap))));
                assert forall|j: int| 0 <= j < agg.len() implies (#[trigger] agg_prev[j]).0
                    == agg[j].0 by {}
                lemma_find_addr_same_keys(agg_prev, agg, a);
                let ia = find_addr(agg_prev, a);
                if ia >= 0 {
                    assert(agg_prev[ia].0 == a);
                    assert(ia != ib);
                    assert(agg[ia] == agg_prev[ia]);
                }
            } else {
                assert(agg == agg_prev.push((b, x)));
                let ia = find_addr(agg_prev, a);
                if ia >= 0 {
                    assert forall|j: int| 0 <= j < ia implies (#[trigger] agg[j]).0 != a by {
                        assert(agg[j] == agg_prev[j]);
                    }
                    assert(agg[ia] == agg_prev[ia]);
                    lemma_find_addr_at(agg, a, ia);
                } else {
                    assert forall|j: int| 0 <= j < agg.len() implies (#[trigger] agg[j]).0
                        != a by {
                        if j < agg_prev.len() {
                            assert(agg[j] == agg_prev[j]);
                        }
                    }
                    lemma_find_addr_at(agg, a, agg.len() as int);
                }
            }
        }
    }
}

} // verus!
