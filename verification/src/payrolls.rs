//! The payroll book: what each pathfinder is owed.

use crate::types::{AccountId, Payroll};
use vstd::prelude::*;

verus! {

/// The payroll that a book holds for `pathfinder`; a pathfinder without an entry is owed nothing.
pub open spec fn payroll_of(book: Map<AccountId, Payroll>, pathfinder: AccountId) -> Payroll {
    if book.contains_key(pathfinder) {
        book[pathfinder]
    } else {
        Payroll::zero()
    }
}

/// `entries` lists a book: each entry is in the book, each pathfinder of the book
/// is listed, and none twice.
pub open spec fn lists(entries: Seq<(AccountId, Payroll)>, book: Map<AccountId, Payroll>) -> bool {
    &&& forall|i: int|
        0 <= i < entries.len() ==> book.contains_key((#[trigger] entries[i]).0) && book[entries[i].0]
            == entries[i].1
    &&& forall|p: AccountId| #[trigger]
        book.contains_key(p) ==> exists|i: int| 0 <= i < entries.len() && (#[trigger] entries[i]).0 == p
    &&& forall|i: int, j: int|
        0 <= i < j < entries.len() ==> (#[trigger] entries[i]).0 != (#[trigger] entries[j]).0
}

spec fn distinct(s: Seq<(AccountId, Payroll)>) -> bool {
    forall|i: int, j: int| 0 <= i < j < s.len() ==> (#[trigger] s[i]).0 != (#[trigger] s[j]).0
}

spec fn has_key(s: Seq<(AccountId, Payroll)>, pathfinder: AccountId) -> bool {
    exists|i: int| 0 <= i < s.len() && (#[trigger] s[i]).0 == pathfinder
}

spec fn index_of(s: Seq<(AccountId, Payroll)>, pathfinder: AccountId) -> int {
    choose|i: int| 0 <= i < s.len() && (#[trigger] s[i]).0 == pathfinder
}

spec fn model(s: Seq<(AccountId, Payroll)>) -> Map<AccountId, Payroll> {
    Map::new(|p: AccountId| has_key(s, p), |p: AccountId| s[index_of(s, p)].1)
}

proof fn lemma_model(s: Seq<(AccountId, Payroll)>)
    requires
        distinct(s),
    ensures
        forall|i: int|
            0 <= i < s.len() ==> model(s).contains_key((#[trigger] s[i]).0) && model(s)[s[i].0]
                == s[i].1,
        forall|p: AccountId| #[trigger]
            model(s).contains_key(p) ==> 0 <= index_of(s, p) < s.len() && s[index_of(s, p)].0 == p,
{
    assert forall|i: int| 0 <= i < s.len() implies model(s).contains_key((#[trigger] s[i]).0)
        && model(s)[s[i].0] == s[i].1 by {
        let p = s[i].0;
        assert(has_key(s, p));
        let j = index_of(s, p);
        assert(0 <= j < s.len() && s[j].0 == p);
        assert(j == i);
    }
}

/// The payroll of every pathfinder that has one, each pathfinder entered once.
pub struct Payrolls {
    entries: Vec<(AccountId, Payroll)>,
}

impl View for Payrolls {
    type V = Map<AccountId, Payroll>;

    closed spec fn view(&self) -> Map<AccountId, Payroll> {
        model(self.entries@)
    }
}

impl Payrolls {
    /// No pathfinder is entered twice.
    pub closed spec fn wf(&self) -> bool {
        distinct(self.entries@)
    }

    /// A book without entries.
    pub fn new() -> (book: Payrolls)
        ensures
            book.wf(),
            book@ == Map::<AccountId, Payroll>::empty(),
    {
        let book = Payrolls { entries: Vec::new() };
        assert(book@ =~= Map::<AccountId, Payroll>::empty());
        book
    }

    fn find(&self, pathfinder: AccountId) -> (found: Option<usize>)
        ensures
            match found {
                Some(i) => i < self.entries@.len() && self.entries@[i as int].0 == pathfinder,
                None => !has_key(self.entries@, pathfinder),
            },
    {
        let mut i: usize = 0;
        while i < self.entries.len()
            invariant
                i <= self.entries@.len(),
                forall|j: int| 0 <= j < i ==> (#[trigger] self.entries@[j]).0 != pathfinder,
            decreases self.entries@.len() - i,
        {
            if self.entries[i].0 == pathfinder {
                return Some(i);
            }
            i += 1;
        }
        None
    }

    /// Reads what `pathfinder` is owed.
    pub fn get(&self, pathfinder: AccountId) -> (payroll: Payroll)
        requires
            self.wf(),
        ensures
            payroll == payroll_of(self@, pathfinder),
    {
        proof {
            lemma_model(self.entries@);
        }
        match self.find(pathfinder) {
            Some(i) => self.entries[i].1,
            None => Payroll { count: 0, total_fee: 0 },
        }
    }

    /// Sets what `pathfinder` is owed.
    pub fn put(&mut self, pathfinder: AccountId, payroll: Payroll)
        requires
            old(self).wf(),
        ensures
            final(self).wf(),
            final(self)@ == old(self)@.insert(pathfinder, payroll),
    {
        proof {
            lemma_model(self.entries@);
        }
        let ghost before = self.entries@;
        let ghost at: int;
        match self.find(pathfinder) {
            Some(i) => {
                self.entries.set(i, (pathfinder, payroll));
                proof {
                    at = i as int;
                }
            },
            None => {
                self.entries.push((pathfinder, payroll));
                proof {
                    at = before.len() as int;
                }
            },
        }
        proof {
            let after = self.entries@;
            assert(after[at] == (pathfinder, payroll));
            assert(forall|j: int| 0 <= j < before.len() && j != at ==> after[j] == before[j]);
            assert(distinct(after)) by {
                assert forall|i: int, j: int| 0 <= i < j < after.len() implies (#[trigger] after[i]).0
                    != (#[trigger] after[j]).0 by {
                    if i != at && j != at {
                        assert(before[i].0 != before[j].0);
                    } else if i == at && j < before.len() {
                        assert(before[j].0 != pathfinder);
                    } else if j == at && i < before.len() {
                        assert(before[i].0 != pathfinder);
                    }
                }
            }
            lemma_model(after);
            assert forall|p: AccountId| model(after).contains_key(p) <==> model(before).insert(
                pathfinder,
                payroll,
            ).contains_key(p) by {
                if has_key(after, p) {
                    let j = index_of(after, p);
                    assert(after[j].0 == p);
                    if p != pathfinder {
                        assert(before[j].0 == p);
                    }
                }
                if has_key(before, p) {
                    let j = index_of(before, p);
                    assert(after[j].0 == p);
                }
                if p == pathfinder {
                    assert(after[at].0 == p);
                }
            }
            assert forall|p: AccountId| model(after).contains_key(p) implies model(after)[p]
                == model(before).insert(pathfinder, payroll)[p] by {
                let j = index_of(after, p);
                assert(after[j].0 == p);
                if p != pathfinder {
                    assert(before[j].0 == p);
                } else {
                    assert(j == at);
                }
            }
            assert(model(after) =~= model(before).insert(pathfinder, payroll));
        }
    }

    /// Takes out what `pathfinder` is owed and leaves it owed nothing.
    pub fn take(&mut self, pathfinder: AccountId) -> (payroll: Payroll)
        requires
            old(self).wf(),
        ensures
            final(self).wf(),
            payroll == payroll_of(old(self)@, pathfinder),
            final(self)@ == old(self)@.remove(pathfinder),
    {
        proof {
            lemma_model(self.entries@);
        }
        let ghost before = self.entries@;
        match self.find(pathfinder) {
            Some(i) => {
                let entry = self.entries.remove(i);
                proof {
                    let after = self.entries@;
                    assert(distinct(after));
                    lemma_model(after);
                    assert forall|p: AccountId| model(after).contains_key(p) <==> model(
                        before,
                    ).remove(pathfinder).contains_key(p) by {
                        if has_key(after, p) {
                            let j = index_of(after, p);
                            if j < i {
                                assert(before[j].0 == p);
                            } else {
                                assert(before[j + 1].0 == p);
                            }
                        }
                        if has_key(before, p) && p != pathfinder {
                            let j = index_of(before, p);
                            if j < i {
                                assert(after[j].0 == p);
                            } else {
                                assert(after[j - 1].0 == p);
                            }
                        }
                    }
                    assert(model(after) =~= model(before).remove(pathfinder));
                }
                entry.1
            },
            None => {
                assert(self@ =~= old(self)@.remove(pathfinder));
                Payroll { count: 0, total_fee: 0 }
            },
        }
    }

    /// Empties the book.
    pub fn clear(&mut self)
        ensures
            final(self).wf(),
            final(self)@ == Map::<AccountId, Payroll>::empty(),
    {
        self.entries.clear();
        assert(self@ =~= Map::<AccountId, Payroll>::empty());
    }

    /// Lists every entry of the book, each pathfinder once.
    pub fn entries(&self) -> (list: Vec<(AccountId, Payroll)>)
        requires
            self.wf(),
        ensures
            lists(list@, self@),
    {
        proof {
            lemma_model(self.entries@);
        }
        let mut list: Vec<(AccountId, Payroll)> = Vec::new();
        let mut i: usize = 0;
        while i < self.entries.len()
            invariant
                i <= self.entries@.len(),
                list@ == self.entries@.subrange(0, i as int),
            decreases self.entries@.len() - i,
        {
            list.push(self.entries[i]);
            assert(list@ =~= self.entries@.subrange(0, i + 1));
            i += 1;
        }
        assert(list@ =~= self.entries@);
        list
    }
}

} // verus!
