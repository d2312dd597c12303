//! What holds of the books across operations: a payroll agrees with the records
//! it was earned by.

use crate::payrolls::payroll_of;
use crate::records::{recorded, total, without_pathfinder, RecordKey};
use crate::types::{AccountId, Balance, BlockNumber, Payroll, Record};
use vstd::prelude::*;

verus! {

/// The number of accounts there are: every target lies below it.
pub open spec fn account_space() -> nat {
    0x1_0000_0000_0000_0000
}

/// The fee recorded for `target` as refreshed by `pathfinder`, zero where there is no record.
pub open spec fn fee_at(book: Map<RecordKey, Record>, pathfinder: AccountId, target: AccountId) -> nat {
    if book.contains_key((pathfinder, target)) {
        book[(pathfinder, target)].fee as nat
    } else {
        0
    }
}

/// One where there is a record for `target` as refreshed by `pathfinder`, else zero.
pub open spec fn held_at(book: Map<RecordKey, Record>, pathfinder: AccountId, target: AccountId) -> nat {
    if book.contains_key((pathfinder, target)) {
        1
    } else {
        0
    }
}

/// The fees of the records of `pathfinder` whose target lies below `bound`, added up.
pub open spec fn fees_below(book: Map<RecordKey, Record>, pathfinder: AccountId, bound: nat) -> nat
    decreases bound,
{
    if bound == 0 {
        0
    } else {
        fees_below(book, pathfinder, (bound - 1) as nat) + fee_at(
            book,
            pathfinder,
            (bound - 1) as AccountId,
        )
    }
}

/// The number of records of `pathfinder` whose target lies below `bound`.
pub open spec fn held_below(book: Map<RecordKey, Record>, pathfinder: AccountId, bound: nat) -> nat
    decreases bound,
{
    if bound == 0 {
        0
    } else {
        held_below(book, pathfinder, (bound - 1) as nat) + held_at(
            book,
            pathfinder,
            (bound - 1) as AccountId,
        )
    }
}

/// The fees of all records of `pathfinder`, added up.
pub open spec fn fee_sum(book: Map<RecordKey, Record>, pathfinder: AccountId) -> nat {
    fees_below(book, pathfinder, account_space())
}

/// The number of records of `pathfinder`.
pub open spec fn record_count(book: Map<RecordKey, Record>, pathfinder: AccountId) -> nat {
    held_below(book, pathfinder, account_space())
}

/// The books agree: what each pathfinder is owed in fees is the sum of the fees of
/// its records, and the number of its updates is the number of its records.
pub open spec fn balanced(payrolls: Map<AccountId, Payroll>, records: Map<RecordKey, Record>) -> bool {
    forall|pathfinder: AccountId|
        {
            &&& (#[trigger] payroll_of(payrolls, pathfinder)).total_fee == fee_sum(
                records,
                pathfinder,
            )
            &&& payroll_of(payrolls, pathfinder).count == record_count(records, pathfinder)
        }
}

/// The targets of a batch are all different, and `pathfinder` has no record of any of them.
pub open spec fn fresh_batch(
    records: Map<RecordKey, Record>,
    pathfinder: AccountId,
    targets: Seq<AccountId>,
) -> bool {
    &&& targets.no_duplicates()
    &&& forall|i: int|
        0 <= i < targets.len() ==> !records.contains_key((pathfinder, #[trigger] targets[i]))
}

/// Two books that hold the same for `pathfinder` at every target but `target` differ
/// in their sums by what they hold at `target`.
pub proof fn lemma_differ_at(
    first: Map<RecordKey, Record>,
    second: Map<RecordKey, Record>,
    pathfinder: AccountId,
    target: AccountId,
    bound: nat,
)
    requires
        bound <= account_space(),
        forall|other: AccountId|
            other != target ==> #[trigger] fee_at(first, pathfinder, other) == fee_at(
                second,
                pathfinder,
                other,
            ),
        forall|other: AccountId|
            other != target ==> #[trigger] held_at(first, pathfinder, other) == held_at(
                second,
                pathfinder,
                other,
            ),
    ensures
        target < bound ==> fees_below(first, pathfinder, bound) - fee_at(first, pathfinder, target)
            == fees_below(second, pathfinder, bound) - fee_at(second, pathfinder, target),
        target < bound ==> held_below(first, pathfinder, bound) - held_at(first, pathfinder, target)
            == held_below(second, pathfinder, bound) - held_at(second, pathfinder, target),
        target >= bound ==> fees_below(first, pathfinder, bound) == fees_below(
            second,
            pathfinder,
            bound,
        ),
        target >= bound ==> held_below(first, pathfinder, bound) == held_below(
            second,
            pathfinder,
            bound,
        ),
    decreases bound,
{
    if bound > 0 {
        lemma_differ_at(first, second, pathfinder, target, (bound - 1) as nat);
        let at = (bound - 1) as AccountId;
        if at != target {
            assert(fee_at(first, pathfinder, at) == fee_at(second, pathfinder, at));
            assert(held_at(first, pathfinder, at) == held_at(second, pathfinder, at));
        }
    }
}

/// Two books that hold the same for `pathfinder` at every target have the same sums.
pub proof fn lemma_agree(
    first: Map<RecordKey, Record>,
    second: Map<RecordKey, Record>,
    pathfinder: AccountId,
    bound: nat,
)
    requires
        forall|other: AccountId| #[trigger]
            fee_at(first, pathfinder, other) == fee_at(second, pathfinder, other),
        forall|other: AccountId| #[trigger]
            held_at(first, pathfinder, other) == held_at(second, pathfinder, other),
    ensures
        fees_below(first, pathfinder, bound) == fees_below(second, pathfinder, bound),
        held_below(first, pathfinder, bound) == held_below(second, pathfinder, bound),
    decreases bound,
{
    if bound > 0 {
        lemma_agree(first, second, pathfinder, (bound - 1) as nat);
        let at = (bound - 1) as AccountId;
        assert(fee_at(first, pathfinder, at) == fee_at(second, pathfinder, at));
        assert(held_at(first, pathfinder, at) == held_at(second, pathfinder, at));
    }
}

/// A pathfinder without records has sums of zero.
pub proof fn lemma_none(book: Map<RecordKey, Record>, pathfinder: AccountId, bound: nat)
    requires
        forall|target: AccountId| !book.contains_key((pathfinder, target)),
    ensures
        fees_below(book, pathfinder, bound) == 0,
        held_below(book, pathfinder, bound) == 0,
    decreases bound,
{
    if bound > 0 {
        lemma_none(book, pathfinder, (bound - 1) as nat);
    }
}

/// Writing one record changes the sums of its pathfinder by the difference to what
/// was there before, and the sums of no other pathfinder.
pub proof fn lemma_put(
    book: Map<RecordKey, Record>,
    pathfinder: AccountId,
    target: AccountId,
    record: Record,
    whose: AccountId,
)
    ensures
        whose != pathfinder ==> fee_sum(book.insert((pathfinder, target), record), whose)
            == fee_sum(book, whose),
        whose != pathfinder ==> record_count(book.insert((pathfinder, target), record), whose)
            == record_count(book, whose),
        fee_sum(book.insert((pathfinder, target), record), pathfinder) == fee_sum(book, pathfinder)
            - fee_at(book, pathfinder, target) + record.fee,
        record_count(book.insert((pathfinder, target), record), pathfinder) == record_count(
            book,
            pathfinder,
        ) - held_at(book, pathfinder, target) + 1,
{
    let after = book.insert((pathfinder, target), record);
    if whose != pathfinder {
        assert forall|other: AccountId| #[trigger]
            fee_at(book, whose, other) == fee_at(after, whose, other) by {}
        assert forall|other: AccountId| #[trigger]
            held_at(book, whose, other) == held_at(after, whose, other) by {}
        lemma_agree(book, after, whose, account_space());
    }
    assert forall|other: AccountId| other != target implies #[trigger] fee_at(
        book,
        pathfinder,
        other,
    ) == fee_at(after, pathfinder, other) by {}
    assert forall|other: AccountId| other != target implies #[trigger] held_at(
        book,
        pathfinder,
        other,
    ) == held_at(after, pathfinder, other) by {}
    lemma_differ_at(book, after, pathfinder, target, account_space());
}

/// Removing one record lowers the sums of its pathfinder by what was there, and
/// changes the sums of no other pathfinder.
pub proof fn lemma_removed(
    book: Map<RecordKey, Record>,
    pathfinder: AccountId,
    target: AccountId,
    whose: AccountId,
)
    ensures
        whose != pathfinder ==> fee_sum(book.remove((pathfinder, target)), whose) == fee_sum(
            book,
            whose,
        ),
        whose != pathfinder ==> record_count(book.remove((pathfinder, target)), whose)
            == record_count(book, whose),
        fee_sum(book.remove((pathfinder, target)), pathfinder) == fee_sum(book, pathfinder)
            - fee_at(book, pathfinder, target),
        record_count(book.remove((pathfinder, target)), pathfinder) == record_count(
            book,
            pathfinder,
        ) - held_at(book, pathfinder, target),
{
    let after = book.remove((pathfinder, target));
    if whose != pathfinder {
        assert forall|other: AccountId| #[trigger]
            fee_at(book, whose, other) == fee_at(after, whose, other) by {}
        assert forall|other: AccountId| #[trigger]
            held_at(book, whose, other) == held_at(after, whose, other) by {}
        lemma_agree(book, after, whose, account_space());
    }
    assert forall|other: AccountId| other != target implies #[trigger] fee_at(
        book,
        pathfinder,
        other,
    ) == fee_at(after, pathfinder, other) by {}
    assert forall|other: AccountId| other != target implies #[trigger] held_at(
        book,
        pathfinder,
        other,
    ) == held_at(after, pathfinder, other) by {}
    lemma_differ_at(book, after, pathfinder, target, account_space());
}

/// A batch of refreshes of targets that are all different and had no record yet
/// raises the sums of the pathfinder by the fees of the batch and by its length,
/// changes the sums of no other pathfinder, and leaves a record for each target.
pub proof fn lemma_recorded(
    book: Map<RecordKey, Record>,
    pathfinder: AccountId,
    targets: Seq<AccountId>,
    fees: Seq<Balance>,
    now: BlockNumber,
    whose: AccountId,
)
    requires
        fees.len() == targets.len(),
        targets.no_duplicates(),
        forall|i: int| 0 <= i < targets.len() ==> !book.contains_key((pathfinder, #[trigger] targets[i])),
    ensures
        whose != pathfinder ==> fee_sum(recorded(book, pathfinder, targets, fees, now), whose)
            == fee_sum(book, whose),
        whose != pathfinder ==> record_count(recorded(book, pathfinder, targets, fees, now), whose)
            == record_count(book, whose),
        fee_sum(recorded(book, pathfinder, targets, fees, now), pathfinder) == fee_sum(
            book,
            pathfinder,
        ) + total(fees),
        record_count(recorded(book, pathfinder, targets, fees, now), pathfinder) == record_count(
            book,
            pathfinder,
        ) + targets.len(),
        forall|key: RecordKey|
            recorded(book, pathfinder, targets, fees, now).contains_key(key) <==> book.contains_key(
                key,
            ) || (key.0 == pathfinder && targets.contains(key.1)),
    decreases targets.len(),
{
    let after = recorded(book, pathfinder, targets, fees, now);
    if targets.len() == 0 {
        assert forall|key: RecordKey| after.contains_key(key) <==> book.contains_key(key) || (key.0
            == pathfinder && targets.contains(key.1)) by {}
    } else {
        let earlier = recorded(book, pathfinder, targets.drop_last(), fees.drop_last(), now);
        let target = targets.last();
        let record = Record { update_at: now, fee: fees.last() };
        lemma_recorded(book, pathfinder, targets.drop_last(), fees.drop_last(), now, whose);
        lemma_put(earlier, pathfinder, target, record, whose);
        assert(!earlier.contains_key((pathfinder, target))) by {
            if targets.drop_last().contains(target) {
                let i = choose|i: int|
                    0 <= i < targets.drop_last().len() && targets.drop_last()[i] == target;
                assert(targets[i] == targets[targets.len() - 1]);
            }
        }
        assert forall|key: RecordKey| after.contains_key(key) <==> book.contains_key(key) || (key.0
            == pathfinder && targets.contains(key.1)) by {
            if key.0 == pathfinder && targets.contains(key.1) {
                let i = choose|i: int| 0 <= i < targets.len() && targets[i] == key.1;
                if i < targets.len() - 1 {
                    assert(targets.drop_last()[i] == key.1);
                }
            }
            if key.0 == pathfinder && targets.drop_last().contains(key.1) {
                let i = choose|i: int|
                    0 <= i < targets.drop_last().len() && targets.drop_last()[i] == key.1;
                assert(targets[i] == key.1);
            }
            if key == (pathfinder, target) {
                assert(targets[targets.len() - 1] == key.1);
            }
        }
    }
}

/// Books without entries agree.
pub proof fn lemma_empty_books_balanced()
    ensures
        balanced(Map::<AccountId, Payroll>::empty(), Map::<RecordKey, Record>::empty()),
{
    assert forall|pathfinder: AccountId|
        {
            &&& (#[trigger] payroll_of(Map::<AccountId, Payroll>::empty(), pathfinder)).total_fee
                == fee_sum(Map::<RecordKey, Record>::empty(), pathfinder)
            &&& payroll_of(Map::<AccountId, Payroll>::empty(), pathfinder).count == record_count(
                Map::<RecordKey, Record>::empty(),
                pathfinder,
            )
        } by {
        lemma_none(Map::<RecordKey, Record>::empty(), pathfinder, account_space());
    }
}

/// Two credits to a payroll amount to one credit of both together: payrolls
/// accumulate over refreshes.
pub proof fn lemma_credits_accumulate(
    payroll: Payroll,
    first_amount: Balance,
    first_count: u32,
    second_amount: Balance,
    second_count: u32,
)
    requires
        payroll.total_fee + first_amount + second_amount <= Balance::MAX,
        payroll.count + first_count + second_count <= u32::MAX,
    ensures
        payroll.credited(first_amount, first_count).credited(second_amount, second_count)
            == payroll.credited(
            (first_amount + second_amount) as Balance,
            (first_count + second_count) as u32,
        ),
        payroll.credited(first_amount, first_count).credited(second_amount, second_count).total_fee
            == payroll.total_fee + first_amount + second_amount,
        payroll.credited(first_amount, first_count).credited(second_amount, second_count).count
            == payroll.count + first_count + second_count,
{
}

/// A refresh keeps agreeing books in agreement, where the targets of the batch are
/// all different and the pathfinder had no record of any of them.
pub proof fn lemma_refresh_keeps_balance(
    payrolls: Map<AccountId, Payroll>,
    records: Map<RecordKey, Record>,
    pathfinder: AccountId,
    targets: Seq<AccountId>,
    fees: Seq<Balance>,
    now: BlockNumber,
)
    requires
        balanced(payrolls, records),
        fees.len() == targets.len(),
        fresh_batch(records, pathfinder, targets),
        payroll_of(payrolls, pathfinder).total_fee + total(fees) <= Balance::MAX,
        payroll_of(payrolls, pathfinder).count + fees.len() <= u32::MAX,
    ensures
        balanced(
            payrolls.insert(
                pathfinder,
                payroll_of(payrolls, pathfinder).credited(total(fees) as Balance, fees.len() as u32),
            ),
            recorded(records, pathfinder, targets, fees, now),
        ),
{
    let credited = payroll_of(payrolls, pathfinder).credited(
        total(fees) as Balance,
        fees.len() as u32,
    );
    let payrolls_after = payrolls.insert(pathfinder, credited);
    let records_after = recorded(records, pathfinder, targets, fees, now);
    lemma_total_nonnegative(fees);
    assert forall|whose: AccountId|
        {
            &&& (#[trigger] payroll_of(payrolls_after, whose)).total_fee == fee_sum(
                records_after,
                whose,
            )
            &&& payroll_of(payrolls_after, whose).count == record_count(records_after, whose)
        } by {
        lemma_recorded(records, pathfinder, targets, fees, now, whose);
        assert(payroll_of(payrolls, whose).total_fee == fee_sum(records, whose));
    }
}

/// A sum of fees is not negative.
pub proof fn lemma_total_nonnegative(fees: Seq<Balance>)
    ensures
        total(fees) >= 0,
    decreases fees.len(),
{
    if fees.len() > 0 {
        lemma_total_nonnegative(fees.drop_last());
    }
}

/// A challenge that claws back an existing record keeps agreeing books in
/// agreement, and takes exactly one update and the record's fee off the payroll:
/// neither number is cut short at zero.
pub proof fn lemma_clawback_keeps_balance(
    payrolls: Map<AccountId, Payroll>,
    records: Map<RecordKey, Record>,
    pathfinder: AccountId,
    target: AccountId,
)
    requires
        balanced(payrolls, records),
        records.contains_key((pathfinder, target)),
    ensures
        payroll_of(payrolls, pathfinder).count >= 1,
        payroll_of(payrolls, pathfinder).total_fee >= records[(pathfinder, target)].fee,
        payroll_of(payrolls, pathfinder).debited(records[(pathfinder, target)].fee).count
            == payroll_of(payrolls, pathfinder).count - 1,
        payroll_of(payrolls, pathfinder).debited(records[(pathfinder, target)].fee).total_fee
            == payroll_of(payrolls, pathfinder).total_fee - records[(pathfinder, target)].fee,
        balanced(
            payrolls.insert(
                pathfinder,
                payroll_of(payrolls, pathfinder).debited(records[(pathfinder, target)].fee),
            ),
            records.remove((pathfinder, target)),
        ),
{
    let payroll = payroll_of(payrolls, pathfinder);
    let fee = records[(pathfinder, target)].fee;
    let payrolls_after = payrolls.insert(pathfinder, payroll.debited(fee));
    let records_after = records.remove((pathfinder, target));
    assert(payroll.total_fee == fee_sum(records, pathfinder));
    lemma_removed(records, pathfinder, target, pathfinder);
    assert forall|whose: AccountId|
        {
            &&& (#[trigger] payroll_of(payrolls_after, whose)).total_fee == fee_sum(
                records_after,
                whose,
            )
            &&& payroll_of(payrolls_after, whose).count == record_count(records_after, whose)
        } by {
        lemma_removed(records, pathfinder, target, whose);
        assert(payroll_of(payrolls, whose).total_fee == fee_sum(records, whose));
    }
}

/// Draining a pathfinder keeps agreeing books in agreement.
pub proof fn lemma_drain_keeps_balance(
    payrolls: Map<AccountId, Payroll>,
    records: Map<RecordKey, Record>,
    pathfinder: AccountId,
)
    requires
        balanced(payrolls, records),
    ensures
        balanced(payrolls.remove(pathfinder), without_pathfinder(records, pathfinder)),
{
    let payrolls_after = payrolls.remove(pathfinder);
    let records_after = without_pathfinder(records, pathfinder);
    assert forall|whose: AccountId|
        {
            &&& (#[trigger] payroll_of(payrolls_after, whose)).total_fee == fee_sum(
                records_after,
                whose,
            )
            &&& payroll_of(payrolls_after, whose).count == record_count(records_after, whose)
        } by {
        assert(payroll_of(payrolls, whose).total_fee == fee_sum(records, whose));
        if whose == pathfinder {
            lemma_none(records_after, pathfinder, account_space());
        } else {
            assert forall|other: AccountId| #[trigger]
                fee_at(records, whose, other) == fee_at(records_after, whose, other) by {}
            assert forall|other: AccountId| #[trigger]
                held_at(records, whose, other) == held_at(records_after, whose, other) by {}
            lemma_agree(records, records_after, whose, account_space());
        }
    }
}

/// What `who` is owed in stake and fees, by a book of payrolls.
pub open spec fn owed_at(
    payrolls: Map<AccountId, Payroll>,
    update_staking_amount: Balance,
    who: AccountId,
) -> nat {
    payroll_of(payrolls, who).owed(update_staking_amount) as nat
}

/// What the pathfinders below `bound` are owed in stake and fees, added up.
pub open spec fn owed_below(
    payrolls: Map<AccountId, Payroll>,
    update_staking_amount: Balance,
    bound: nat,
) -> nat
    decreases bound,
{
    if bound == 0 {
        0
    } else {
        owed_below(payrolls, update_staking_amount, (bound - 1) as nat) + owed_at(
            payrolls,
            update_staking_amount,
            (bound - 1) as AccountId,
        )
    }
}

/// What all pathfinders together are owed in stake and fees.
pub open spec fn owed_sum(payrolls: Map<AccountId, Payroll>, update_staking_amount: Balance) -> nat {
    owed_below(payrolls, update_staking_amount, account_space())
}

/// What a list of payrolls owes in stake and fees, added up.
pub open spec fn owed_of(entries: Seq<(AccountId, Payroll)>, update_staking_amount: Balance) -> nat
    decreases entries.len(),
{
    if entries.len() == 0 {
        0
    } else {
        owed_of(entries.drop_last(), update_staking_amount) + entries.last().1.owed(
            update_staking_amount,
        ) as nat
    }
}

/// Taking one pathfinder out of a book lowers what the book owes by what that
/// pathfinder was owed.
pub proof fn lemma_owed_without(
    payrolls: Map<AccountId, Payroll>,
    update_staking_amount: Balance,
    who: AccountId,
    bound: nat,
)
    requires
        bound <= account_space(),
    ensures
        who < bound ==> owed_below(payrolls, update_staking_amount, bound) == owed_below(
            payrolls.remove(who),
            update_staking_amount,
            bound,
        ) + owed_at(payrolls, update_staking_amount, who),
        who >= bound ==> owed_below(payrolls, update_staking_amount, bound) == owed_below(
            payrolls.remove(who),
            update_staking_amount,
            bound,
        ),
    decreases bound,
{
    if bound > 0 {
        lemma_owed_without(payrolls, update_staking_amount, who, (bound - 1) as nat);
        let at = (bound - 1) as AccountId;
        if at != who {
            assert(payroll_of(payrolls.remove(who), at) == payroll_of(payrolls, at));
        } else {
            assert(payroll_of(payrolls.remove(who), at) == Payroll::zero());
            assert(Payroll::zero().owed(update_staking_amount) == 0) by (nonlinear_arith);
        }
    }
}

/// A list of entries of a book, no pathfinder twice, owes no more than the book.
pub proof fn lemma_entries_owed(
    entries: Seq<(AccountId, Payroll)>,
    payrolls: Map<AccountId, Payroll>,
    update_staking_amount: Balance,
)
    requires
        forall|i: int|
            0 <= i < entries.len() ==> payrolls.contains_key((#[trigger] entries[i]).0)
                && payrolls[entries[i].0] == entries[i].1,
        forall|i: int, j: int|
            0 <= i < j < entries.len() ==> (#[trigger] entries[i]).0 != (#[trigger] entries[j]).0,
    ensures
        owed_of(entries, update_staking_amount) <= owed_sum(payrolls, update_staking_amount),
    decreases entries.len(),
{
    if entries.len() > 0 {
        let who = entries.last().0;
        let rest = entries.drop_last();
        assert(entries[entries.len() - 1].0 == who);
        assert forall|i: int| 0 <= i < rest.len() implies payrolls.remove(who).contains_key(
            (#[trigger] rest[i]).0,
        ) && payrolls.remove(who)[rest[i].0] == rest[i].1 by {
            assert(rest[i] == entries[i]);
            assert(entries[i].0 != entries[entries.len() - 1].0);
        }
        assert forall|i: int, j: int| 0 <= i < j < rest.len() implies (#[trigger] rest[i]).0 != (
        #[trigger] rest[j]).0 by {
            assert(rest[i] == entries[i]);
            assert(rest[j] == entries[j]);
        }
        lemma_entries_owed(rest, payrolls.remove(who), update_staking_amount);
        lemma_owed_without(payrolls, update_staking_amount, who, account_space());
    }
}

/// Cuts that are each no more than the entry at the same place is owed add up to
/// no more than the entries are owed together.
pub proof fn lemma_cuts_within(
    entries: Seq<(AccountId, Payroll)>,
    cuts: Seq<Balance>,
    update_staking_amount: Balance,
)
    requires
        cuts.len() == entries.len(),
        forall|i: int|
            0 <= i < cuts.len() ==> #[trigger] cuts[i] <= entries[i].1.owed(update_staking_amount),
    ensures
        0 <= total(cuts) <= owed_of(entries, update_staking_amount),
    decreases cuts.len(),
{
    if cuts.len() > 0 {
        assert forall|i: int| 0 <= i < cuts.drop_last().len() implies #[trigger] cuts.drop_last()[i]
            <= entries.drop_last()[i].1.owed(update_staking_amount) by {
            assert(cuts[i] <= entries[i].1.owed(update_staking_amount));
        }
        lemma_cuts_within(entries.drop_last(), cuts.drop_last(), update_staking_amount);
        assert(cuts[cuts.len() - 1] <= entries[cuts.len() - 1].1.owed(update_staking_amount));
    }
}

} // verus!
