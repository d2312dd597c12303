//! The record book: the last refresh of each target by each pathfinder.

use crate::types::{AccountId, Balance, BlockNumber, Record};
use vstd::prelude::*;

verus! {

/// The key of a record: the pathfinder that refreshed, then the target it refreshed.
pub type RecordKey = (AccountId, AccountId);

/// The record that a book holds under a key; an absent entry reads as the zero record.
pub open spec fn record_of(book: Map<RecordKey, Record>, key: RecordKey) -> Record {
    if book.contains_key(key) {
        book[key]
    } else {
        Record::zero()
    }
}

/// The book without any record of `pathfinder`.
pub open spec fn without_pathfinder(book: Map<RecordKey, Record>, pathfinder: AccountId) -> Map<
    RecordKey,
    Record,
> {
    Map::new(|key: RecordKey| book.contains_key(key) && key.0 != pathfinder, |key: RecordKey| book[key])
}

/// The fees of a batch added up.
pub open spec fn total(fees: Seq<Balance>) -> int
    decreases fees.len(),
{
    if fees.len() == 0 {
        0
    } else {
        total(fees.drop_last()) + fees.last()
    }
}

/// The book after `pathfinder` refreshed `targets` at `now`, one after the other,
/// each for the fee at the same place in `fees`. A later refresh of a target
/// replaces an earlier one.
pub open spec fn recorded(
    book: Map<RecordKey, Record>,
    pathfinder: AccountId,
    targets: Seq<AccountId>,
    fees: Seq<Balance>,
    now: BlockNumber,
) -> Map<RecordKey, Record>
    decreases targets.len(),
{
    if targets.len() == 0 || fees.len() == 0 {
        book
    } else {
        recorded(book, pathfinder, targets.drop_last(), fees.drop_last(), now).insert(
            (pathfinder, targets.last()),
            Record { update_at: now, fee: fees.last() },
        )
    }
}

spec fn key_at(s: Seq<(AccountId, AccountId, Record)>, i: int) -> RecordKey {
    (s[i].0, s[i].1)
}

spec fn distinct(s: Seq<(AccountId, AccountId, Record)>) -> bool {
    forall|i: int, j: int| 0 <= i < j < s.len() ==> #[trigger] key_at(s, i) != #[trigger] key_at(s, j)
}

spec fn has_key(s: Seq<(AccountId, AccountId, Record)>, key: RecordKey) -> bool {
    exists|i: int| 0 <= i < s.len() && #[trigger] key_at(s, i) == key
}

spec fn index_of(s: Seq<(AccountId, AccountId, Record)>, key: RecordKey) -> int {
    choose|i: int| 0 <= i < s.len() && #[trigger] key_at(s, i) == key
}

spec fn model(s: Seq<(AccountId, AccountId, Record)>) -> Map<RecordKey, Record> {
    Map::new(|key: RecordKey| has_key(s, key), |key: RecordKey| s[index_of(s, key)].2)
}

proof fn lemma_model(s: Seq<(AccountId, AccountId, Record)>)
    requires
        distinct(s),
    ensures
        forall|i: int|
            0 <= i < s.len() ==> model(s).contains_key(#[trigger] key_at(s, i)) && model(s)[key_at(
                s,
                i,
            )] == s[i].2,
        forall|key: RecordKey| #[trigger]
            model(s).contains_key(key) ==> 0 <= index_of(s, key) < s.len() && key_at(
                s,
                index_of(s, key),
            ) == key,
{
    assert forall|i: int| 0 <= i < s.len() implies model(s).contains_key(#[trigger] key_at(s, i))
        && model(s)[key_at(s, i)] == s[i].2 by {
        let key = key_at(s, i);
        assert(has_key(s, key));
        let j = index_of(s, key);
        assert(0 <= j < s.len() && key_at(s, j) == key);
        assert(j == i);
    }
}

proof fn lemma_removed(s: Seq<(AccountId, AccountId, Record)>, at: int)
    requires
        distinct(s),
        0 <= at < s.len(),
    ensures
        distinct(s.remove(at)),
        model(s.remove(at)) == model(s).remove(key_at(s, at)),
{
    let after = s.remove(at);
    let gone = key_at(s, at);
    assert forall|i: int, j: int| 0 <= i < j < after.len() implies #[trigger] key_at(after, i)
        != #[trigger] key_at(after, j) by {
        let a = if i < at { i } else { i + 1 };
        let b = if j < at { j } else { j + 1 };
        assert(key_at(after, i) == key_at(s, a));
        assert(key_at(after, j) == key_at(s, b));
    }
    lemma_model(s);
    lemma_model(after);
    assert forall|key: RecordKey| model(after).contains_key(key) <==> model(s).remove(
        gone,
    ).contains_key(key) by {
        if has_key(after, key) {
            let j = index_of(after, key);
            let b = if j < at { j } else { j + 1 };
            assert(key_at(s, b) == key);
            assert(key_at(s, b) != key_at(s, at));
        }
        if has_key(s, key) && key != gone {
            let j = index_of(s, key);
            let b = if j < at { j } else { j - 1 };
            assert(key_at(after, b) == key);
        }
    }
    assert forall|key: RecordKey| model(after).contains_key(key) implies model(after)[key]
        == model(s).remove(gone)[key] by {
        let j = index_of(after, key);
        let b = if j < at { j } else { j + 1 };
        assert(key_at(s, b) == key);
        assert(s[b].2 == after[j].2);
    }
    assert(model(after) =~= model(s).remove(gone));
}

/// The records of every refreshed pair, each pair entered once.
pub struct Records {
    entries: Vec<(AccountId, AccountId, Record)>,
}

impl View for Records {
    type V = Map<RecordKey, Record>;

    closed spec fn view(&self) -> Map<RecordKey, Record> {
        model(self.entries@)
    }
}

impl Records {
    /// No pair is entered twice.
    pub closed spec fn wf(&self) -> bool {
        distinct(self.entries@)
    }

    /// A book without entries.
    pub fn new() -> (book: Records)
        ensures
            book.wf(),
            book@ == Map::<RecordKey, Record>::empty(),
    {
        let book = Records { entries: Vec::new() };
        assert(book@ =~= Map::<RecordKey, Record>::empty());
        book
    }

    fn find(&self, pathfinder: AccountId, target: AccountId) -> (found: Option<usize>)
        ensures
            match found {
                Some(i) => i < self.entries@.len() && key_at(self.entries@, i as int) == (
                    pathfinder,
                    target,
                ),
                None => !has_key(self.entries@, (pathfinder, target)),
            },
    {
        let mut i: usize = 0;
        while i < self.entries.len()
            invariant
                i <= self.entries@.len(),
                forall|j: int| 0 <= j < i ==> #[trigger] key_at(self.entries@, j) != (pathfinder, target),
            decreases self.entries@.len() - i,
        {
            if self.entries[i].0 == pathfinder && self.entries[i].1 == target {
                return Some(i);
            }
            i += 1;
        }
        None
    }

    /// Reads the record of `target` as refreshed by `pathfinder`, if there is one.
    pub fn get(&self, pathfinder: AccountId, target: AccountId) -> (record: Option<Record>)
        requires
            self.wf(),
        ensures
            match record {
                Some(r) => self@.contains_key((pathfinder, target)) && r == self@[(pathfinder, target)],
                None => !self@.contains_key((pathfinder, target)),
            },
    {
        proof {
            lemma_model(self.entries@);
        }
        match self.find(pathfinder, target) {
            Some(i) => {
                assert(key_at(self.entries@, i as int) == (pathfinder, target));
                Some(self.entries[i].2)
            },
            None => None,
        }
    }

    /// Writes the record of `target` as refreshed by `pathfinder`, over any earlier one.
    pub fn put(&mut self, pathfinder: AccountId, target: AccountId, record: Record)
        requires
            old(self).wf(),
        ensures
            final(self).wf(),
            final(self)@ == old(self)@.insert((pathfinder, target), record),
    {
        proof {
            lemma_model(self.entries@);
        }
        let ghost before = self.entries@;
        let ghost at: int;
        match self.find(pathfinder, target) {
            Some(i) => {
                self.entries.set(i, (pathfinder, target, record));
                proof {
                    at = i as int;
                }
            },
            None => {
                self.entries.push((pathfinder, target, record));
                proof {
                    at = before.len() as int;
                }
            },
        }
        proof {
            let after = self.entries@;
            let key = (pathfinder, target);
            assert(after[at] == (pathfinder, target, record));
            assert(key_at(after, at) == key);
            assert(forall|j: int|
                0 <= j < before.len() && j != at ==> #[trigger] key_at(after, j) == key_at(before, j)
                    && after[j] == before[j]);
            assert(distinct(after)) by {
                assert forall|i: int, j: int| 0 <= i < j < after.len() implies #[trigger] key_at(
                    after,
                    i,
                ) != #[trigger] key_at(after, j) by {
                    if i != at && j != at {
                        assert(key_at(before, i) != key_at(before, j));
                    } else if i == at && j < before.len() {
                        assert(key_at(before, j) != key);
                    } else if j == at && i < before.len() {
                        assert(key_at(before, i) != key);
                    }
                }
            }
            lemma_model(after);
            assert forall|k: RecordKey| model(after).contains_key(k) <==> model(before).insert(
                key,
                record,
            ).contains_key(k) by {
                if has_key(after, k) {
                    let j = index_of(after, k);
                    assert(key_at(after, j) == k);
                    if k != key {
                        assert(key_at(before, j) == k);
                    }
                }
                if has_key(before, k) {
                    let j = index_of(before, k);
                    assert(key_at(before, j) == k);
                    if j != at {
                        assert(key_at(after, j) == k);
                    }
                }
            }
            assert forall|k: RecordKey| model(after).contains_key(k) implies model(after)[k]
                == model(before).insert(key, record)[k] by {
                let j = index_of(after, k);
                assert(key_at(after, j) == k);
                if k != key {
                    assert(key_at(before, j) == k);
                } else {
                    assert(j == at);
                }
            }
            assert(model(after) =~= model(before).insert(key, record));
        }
    }

    /// Takes the record of `target` as refreshed by `pathfinder` out of the book.
    pub fn take(&mut self, pathfinder: AccountId, target: AccountId) -> (record: Option<Record>)
        requires
            old(self).wf(),
        ensures
            final(self).wf(),
            final(self)@ == old(self)@.remove((pathfinder, target)),
            match record {
                Some(r) => old(self)@.contains_key((pathfinder, target)) && r == old(self)@[(
                    pathfinder,
                    target,
                )],
                None => !old(self)@.contains_key((pathfinder, target)),
            },
    {
        proof {
            lemma_model(self.entries@);
        }
        match self.find(pathfinder, target) {
            Some(i) => {
                proof {
                    lemma_removed(self.entries@, i as int);
                    assert(key_at(self.entries@, i as int) == (pathfinder, target));
                }
                let entry = self.entries.remove(i);
                Some(entry.2)
            },
            None => {
                assert(self@ =~= old(self)@.remove((pathfinder, target)));
                None
            },
        }
    }

    /// Lists every entry of the book as pathfinder, target and record, each pair once.
    pub fn entries(&self) -> (list: Vec<(AccountId, AccountId, Record)>)
        requires
            self.wf(),
        ensures
            forall|i: int|
                0 <= i < list@.len() ==> {
                    let entry = #[trigger] list@[i];
                    self@.contains_key((entry.0, entry.1)) && self@[(entry.0, entry.1)] == entry.2
                },
            forall|key: RecordKey| #[trigger]
                self@.contains_key(key) ==> exists|i: int|
                    0 <= i < list@.len() && (#[trigger] list@[i]).0 == key.0 && list@[i].1 == key.1,
            forall|i: int, j: int|
                0 <= i < j < list@.len() ==> {
                    let first = #[trigger] list@[i];
                    let second = #[trigger] list@[j];
                    first.0 != second.0 || first.1 != second.1
                },
    {
        proof {
            lemma_model(self.entries@);
        }
        let mut list: Vec<(AccountId, AccountId, Record)> = Vec::new();
        let mut i: usize = 0;
        while i < self.entries.len()
            invariant
                i <= self.entries@.len(),
                list@ == self.entries@.subrange(0, i as int),
            decreases self.entries@.len() - i,
        {
            list.push(self.entries[i]);
            assert(list@ =~= self.entries@.subrange(0, i + 1));
            i += 1;
        }
        proof {
            assert(list@ =~= self.entries@);
            assert forall|i: int| 0 <= i < list@.len() implies {
                let entry = #[trigger] list@[i];
                self@.contains_key((entry.0, entry.1)) && self@[(entry.0, entry.1)] == entry.2
            } by {
                assert(key_at(self.entries@, i) == (list@[i].0, list@[i].1));
            }
            assert forall|key: RecordKey| #[trigger] self@.contains_key(key) implies exists|i: int|
                0 <= i < list@.len() && (#[trigger] list@[i]).0 == key.0 && list@[i].1 == key.1 by {
                let i = index_of(self.entries@, key);
                assert(key_at(self.entries@, i) == key);
                assert(list@[i].0 == key.0 && list@[i].1 == key.1);
            }
            assert forall|i: int, j: int| 0 <= i < j < list@.len() implies {
                let first = #[trigger] list@[i];
                let second = #[trigger] list@[j];
                first.0 != second.0 || first.1 != second.1
            } by {
                assert(key_at(self.entries@, i) != key_at(self.entries@, j));
            }
        }
        list
    }

    /// Removes every record of `pathfinder`, whatever its target.
    pub fn remove_prefix(&mut self, pathfinder: AccountId)
        requires
            old(self).wf(),
        ensures
            final(self).wf(),
            final(self)@ == without_pathfinder(old(self)@, pathfinder),
    {
        let ghost start = self@;
        let mut i: usize = 0;
        while i < self.entries.len()
            invariant
                self.wf(),
                i <= self.entries@.len(),
                forall|j: int| 0 <= j < i ==> (#[trigger] key_at(self.entries@, j)).0 != pathfinder,
                forall|key: RecordKey| #[trigger]
                    self@.contains_key(key) ==> start.contains_key(key) && self@[key] == start[key],
                forall|key: RecordKey|
                    start.contains_key(key) && key.0 != pathfinder ==> #[trigger] self@.contains_key(
                        key,
                    ),
            decreases self.entries@.len() - i,
        {
            if self.entries[i].0 == pathfinder {
                proof {
                    lemma_removed(self.entries@, i as int);
                }
                let ghost before = self.entries@;
                let ghost held = self@;
                let ghost gone = key_at(before, i as int);
                self.entries.remove(i);
                assert(forall|j: int|
                    0 <= j < i ==> #[trigger] key_at(self.entries@, j) == key_at(before, j));
                assert(self@ == held.remove(gone));
                assert(gone.0 == pathfinder);
                assert forall|key: RecordKey| #[trigger] self@.contains_key(key) implies start.contains_key(
                    key,
                ) && self@[key] == start[key] by {
                    assert(held.contains_key(key));
                }
                assert forall|key: RecordKey|
                    start.contains_key(key) && key.0 != pathfinder implies #[trigger] self@.contains_key(
                    key,
                ) by {
                    assert(held.contains_key(key));
                }
            } else {
                assert(key_at(self.entries@, i as int).0 != pathfinder);
                i += 1;
            }
        }
        proof {
            lemma_model(self.entries@);
            assert forall|key: RecordKey| self@.contains_key(key) implies key.0 != pathfinder by {
                let j = index_of(self.entries@, key);
                assert(key_at(self.entries@, j) == key);
            }
            assert(self@ =~= without_pathfinder(start, pathfinder));
        }
    }
}

} // verus!
