use vstd::prelude::*;

use crate::error::EngineError;

verus! {

/// One account's balance of one asset.
pub struct Holding {
    pub account: String,
    pub amount: u128,
}

/// No account holds two entries.
pub open spec fn accounts_unique(s: Seq<Holding>) -> bool {
    forall|i: int, j: int|
        0 <= i < s.len() && 0 <= j < s.len() && i != j ==> s[i].account@ != s[j].account@
}

/// The balance of `acct` in `s`: its entry's amount, or zero without one.
pub open spec fn balance_in(s: Seq<Holding>, acct: Seq<char>) -> nat
    decreases s.len(),
{
    if s.len() == 0 {
        0
    } else if s.last().account@ == acct {
        s.last().amount as nat
    } else {
        balance_in(s.drop_last(), acct)
    }
}

/// The sum of all amounts in `s`.
pub open spec fn total_in(s: Seq<Holding>) -> nat
    decreases s.len(),
{
    if s.len() == 0 {
        0
    } else {
        total_in(s.drop_last()) + s.last().amount as nat
    }
}

proof fn lemma_balance_at(s: Seq<Holding>, i: int)
    requires
        accounts_unique(s),
        0 <= i < s.len(),
    ensures
        balance_in(s, s[i].account@) == s[i].amount,
    decreases s.len(),
{
    if i < s.len() - 1 {
        lemma_balance_at(s.drop_last(), i);
    }
}

proof fn lemma_balance_absent(s: Seq<Holding>, acct: Seq<char>)
    requires
        forall|i: int| 0 <= i < s.len() ==> s[i].account@ != acct,
    ensures
        balance_in(s, acct) == 0,
    decreases s.len(),
{
    if s.len() > 0 {
        lemma_balance_absent(s.drop_last(), acct);
    }
}

proof fn lemma_update(s: Seq<Holding>, i: int, h: Holding)
    requires
        0 <= i < s.len(),
        h.account@ == s[i].account@,
    ensures
        forall|x: Seq<char>| x != h.account@ ==> balance_in(s.update(i, h), x) == balance_in(s, x),
        total_in(s.update(i, h)) == total_in(s) - s[i].amount + h.amount,
        accounts_unique(s) ==> accounts_unique(s.update(i, h)),
    decreases s.len(),
{
    let t = s.update(i, h);
    if i < s.len() - 1 {
        assert(t.drop_last() =~= s.drop_last().update(i, h));
        lemma_update(s.drop_last(), i, h);
    } else {
        assert(t.drop_last() =~= s.drop_last());
    }
    assert forall|x: Seq<char>| x != h.account@ implies balance_in(t, x) == balance_in(s, x) by {
        if i < s.len() - 1 {
            assert(t.drop_last() =~= s.drop_last().update(i, h));
            assert(t.last() == s.last());
            assert(balance_in(s.drop_last().update(i, h), x) == balance_in(s.drop_last(), x));
        } else {
            assert(t.drop_last() =~= s.drop_last());
            assert(t.last() == h);
            assert(s.last().account@ == h.account@);
        }
    }
    if accounts_unique(s) {
        assert forall|a: int, b: int|
            0 <= a < t.len() && 0 <= b < t.len() && a != b implies t[a].account@
            != t[b].account@ by {
            assert(s[a].account@ != s[b].account@);
        }
    }
}

proof fn lemma_push(s: Seq<Holding>, h: Holding)
    requires
        forall|i: int| 0 <= i < s.len() ==> s[i].account@ != h.account@,
    ensures
        forall|x: Seq<char>| x != h.account@ ==> balance_in(s.push(h), x) == balance_in(s, x),
        balance_in(s.push(h), h.account@) == h.amount,
        total_in(s.push(h)) == total_in(s) + h.amount,
        accounts_unique(s) ==> accounts_unique(s.push(h)),
{
    assert(s.push(h).drop_last() =~= s);
}

proof fn lemma_balance_le_total(s: Seq<Holding>, acct: Seq<char>)
    ensures
        balance_in(s, acct) <= total_in(s),
    decreases s.len(),
{
    if s.len() > 0 {
        lemma_balance_le_total(s.drop_last(), acct);
    }
}

proof fn lemma_one_le_total(s: Seq<Holding>, i: int)
    requires
        0 <= i < s.len(),
    ensures
        s[i].amount <= total_in(s),
    decreases s.len(),
{
    if i < s.len() - 1 {
        lemma_one_le_total(s.drop_last(), i);
    }
}

/// The position of `acct`'s entry in `v`, if it has one.
fn find(v: &Vec<Holding>, acct: &String) -> (r: Option<usize>)
    ensures
        r is Some ==> r->Some_0 < v@.len() && v@[r->Some_0 as int].account@ == acct@,
        r is None ==> forall|i: int| 0 <= i < v@.len() ==> v@[i].account@ != acct@,
{
    let mut i: usize = 0;
    while i < v.len()
        invariant
            i <= v@.len(),
            forall|k: int| 0 <= k < i ==> v@[k].account@ != acct@,
        decreases v@.len() - i,
    {
        if v[i].account == *acct {
            return Some(i);
        }
        i = i + 1;
    }
    None
}

/// Adds `amount` to `acct`'s balance in `v`, making an entry when it has none.
fn credit(v: &mut Vec<Holding>, acct: &String, amount: u128)
    requires
        accounts_unique(old(v)@),
        total_in(old(v)@) + amount <= u128::MAX,
    ensures
        accounts_unique(final(v)@),
        total_in(final(v)@) == total_in(old(v)@) + amount,
        balance_in(final(v)@, acct@) == balance_in(old(v)@, acct@) + amount,
        forall|x: Seq<char>| x != acct@ ==> balance_in(final(v)@, x) == balance_in(old(v)@, x),
{
    match find(v, acct) {
        Some(i) => {
            proof {
                lemma_balance_at(v@, i as int);
                lemma_one_le_total(v@, i as int);
            }
            let h = Holding { account: acct.clone(), amount: v[i].amount + amount };
            proof {
                lemma_update(v@, i as int, h);
                lemma_balance_at(v@.update(i as int, h), i as int);
            }
            v.set(i, h);
        },
        None => {
            let h = Holding { account: acct.clone(), amount };
            proof {
                lemma_balance_absent(v@, acct@);
                lemma_push(v@, h);
            }
            v.push(h);
        },
    }
}

/// Sets `acct`'s balance in `v` to `amount`, making an entry when it has none.
fn assign(v: &mut Vec<Holding>, acct: &String, amount: u128)
    requires
        accounts_unique(old(v)@),
        total_in(old(v)@) - balance_in(old(v)@, acct@) + amount <= u128::MAX,
    ensures
        accounts_unique(final(v)@),
        total_in(final(v)@) == total_in(old(v)@) - balance_in(old(v)@, acct@) + amount,
        balance_in(final(v)@, acct@) == amount,
        forall|x: Seq<char>| x != acct@ ==> balance_in(final(v)@, x) == balance_in(old(v)@, x),
{
    match find(v, acct) {
        Some(i) => {
            proof {
                lemma_balance_at(v@, i as int);
            }
            let h = Holding { account: acct.clone(), amount };
            proof {
                lemma_update(v@, i as int, h);
                lemma_balance_at(v@.update(i as int, h), i as int);
            }
            v.set(i, h);
        },
        None => {
            let h = Holding { account: acct.clone(), amount };
            proof {
                lemma_balance_absent(v@, acct@);
                lemma_push(v@, h);
            }
            v.push(h);
        },
    }
}

/// Moves `amount` from `from` to `to` within `v`.
fn move_between(v: &mut Vec<Holding>, from: &String, to: &String, amount: u128)
    requires
        accounts_unique(old(v)@),
        total_in(old(v)@) <= u128::MAX,
        from@ != to@,
        balance_in(old(v)@, from@) >= amount,
    ensures
        accounts_unique(final(v)@),
        total_in(final(v)@) == total_in(old(v)@),
        balance_in(final(v)@, from@) == balance_in(old(v)@, from@) - amount,
        balance_in(final(v)@, to@) == balance_in(old(v)@, to@) + amount,
        forall|x: Seq<char>|
            x != from@ && x != to@ ==> balance_in(final(v)@, x) == balance_in(old(v)@, x),
{
    if amount == 0 {
        return;
    }
    let i = match find(v, from) {
        Some(i) => i,
        None => {
            proof {
                lemma_balance_absent(v@, from@);
            }
            return;
        },
    };
    proof {
        lemma_balance_at(v@, i as int);
    }
    let h = Holding { account: from.clone(), amount: v[i].amount - amount };
    proof {
        lemma_update(v@, i as int, h);
        lemma_balance_at(v@.update(i as int, h), i as int);
    }
    v.set(i, h);
    credit(v, to, amount);
}

/// Balances of assets A and B per account, one entry per account and asset.
/// Held in memory; persisting it is left to the host.
pub struct BalanceLedger {
    pub a: Vec<Holding>,
    pub b: Vec<Holding>,
}

impl BalanceLedger {
    /// Entries of one asset are per account, and each asset's total fits in a `u128`.
    pub open spec fn wf(&self) -> bool {
        &&& accounts_unique(self.a@)
        &&& accounts_unique(self.b@)
        &&& total_in(self.a@) <= u128::MAX
        &&& total_in(self.b@) <= u128::MAX
    }

    /// The balance of `acct` in asset A (`asset` holds) or B.
    pub open spec fn balance(&self, acct: Seq<char>, asset: bool) -> nat {
        if asset {
            balance_in(self.a@, acct)
        } else {
            balance_in(self.b@, acct)
        }
    }

    /// The sum of all balances of asset A (`asset` holds) or B.
    pub open spec fn total(&self, asset: bool) -> nat {
        if asset {
            total_in(self.a@)
        } else {
            total_in(self.b@)
        }
    }

    /// A ledger in which every balance is zero.
    pub fn new() -> (r: Self)
        ensures
            r.wf(),
            forall|x: Seq<char>, asset: bool| r.balance(x, asset) == 0,
    {
        BalanceLedger { a: Vec::new(), b: Vec::new() }
    }

    /// The balance of `acct` in asset A (`asset` holds) or B.
    pub fn balance_of(&self, acct: &String, asset: bool) -> (r: u128)
        requires
            self.wf(),
        ensures
            r == self.balance(acct@, asset),
    {
        let v = if asset {
            &self.a
        } else {
            &self.b
        };
        match find(v, acct) {
            Some(i) => {
                proof {
                    lemma_balance_at(v@, i as int);
                }
                v[i].amount
            },
            None => {
                proof {
                    lemma_balance_absent(v@, acct@);
                }
                0
            },
        }
    }

    /// Moves `amount` of an asset from `from` to `to`. Fails with
    /// `SelfTransfer` when they are one account and with `InsufficientBalance`
    /// when `from` holds less than `amount`; a failure changes nothing. Every
    /// other balance and each asset's total stay as they were.
    pub fn transfer(&mut self, from: &String, to: &String, amount: u128, asset: bool) -> (r:
        Result<(), EngineError>)
        requires
            old(self).wf(),
        ensures
            final(self).wf(),
            from@ == to@ ==> r == Err::<(), EngineError>(EngineError::SelfTransfer),
            from@ != to@ && old(self).balance(from@, asset) < amount ==> r == Err::<
                (),
                EngineError,
            >(EngineError::InsufficientBalance),
            r is Err ==> *final(self) == *old(self),
            from@ != to@ && old(self).balance(from@, asset) >= amount ==> r is Ok,
            r is Ok ==> final(self).balance(from@, asset) == old(self).balance(from@, asset)
                - amount && final(self).balance(to@, asset) == old(self).balance(to@, asset)
                + amount,
            forall|x: Seq<char>|
                x != from@ && x != to@ ==> final(self).balance(x, asset) == old(self).balance(
                    x,
                    asset,
                ),
            forall|x: Seq<char>, other: bool|
                other != asset ==> final(self).balance(x, other) == old(self).balance(x, other),
            final(self).total(true) == old(self).total(true),
            final(self).total(false) == old(self).total(false),
    {
        if *from == *to {
            return Err(EngineError::SelfTransfer);
        }
        if self.balance_of(from, asset) < amount {
            return Err(EngineError::InsufficientBalance);
        }
        if asset {
            move_between(&mut self.a, from, to, amount);
        } else {
            move_between(&mut self.b, from, to, amount);
        }
        Ok(())
    }

    /// Credits `amount` of an asset to `account`; fails with `Overflow`,
    /// changing nothing, when the asset's total would not fit in a `u128`.
    pub fn deposit(&mut self, account: &String, amount: u128, asset: bool) -> (r: Result<(), EngineError>)
        requires
            old(self).wf(),
        ensures
            final(self).wf(),
            old(self).total(asset) + amount > u128::MAX ==> r == Err::<(), EngineError>(
                EngineError::Overflow,
            ) && *final(self) == *old(self),
            old(self).total(asset) + amount <= u128::MAX ==> r is Ok
                && final(self).balance(account@, asset) == old(self).balance(account@, asset) + amount
                && final(self).total(asset) == old(self).total(asset) + amount,
            forall|x: Seq<char>|
                x != account@ ==> final(self).balance(x, asset) == old(self).balance(x, asset),
            forall|x: Seq<char>, other: bool|
                other != asset ==> final(self).balance(x, other) == old(self).balance(x, other),
            final(self).total(!asset) == old(self).total(!asset),
    {
        if asset {
            if amount > u128::MAX - total_of(&self.a) {
                return Err(EngineError::Overflow);
            }
            credit(&mut self.a, account, amount);
        } else {
            if amount > u128::MAX - total_of(&self.b) {
                return Err(EngineError::Overflow);
            }
            credit(&mut self.b, account, amount);
        }
        Ok(())
    }
}

impl BalanceLedger {
    /// Sets `account`'s balance of an asset to `amount`; fails with
    /// `Overflow`, changing nothing, when the asset's total would not fit in a
    /// `u128`.
    pub fn set_balance(&mut self, account: &String, amount: u128, asset: bool) -> (r: Result<(), EngineError>)
        requires
            old(self).wf(),
        ensures
            final(self).wf(),
            old(self).total(asset) - old(self).balance(account@, asset) + amount > u128::MAX ==> r
                == Err::<(), EngineError>(EngineError::Overflow) && *final(self) == *old(self),
            old(self).total(asset) - old(self).balance(account@, asset) + amount <= u128::MAX ==> r is Ok
                && final(self).balance(account@, asset) == amount,
            forall|x: Seq<char>|
                x != account@ ==> final(self).balance(x, asset) == old(self).balance(x, asset),
            forall|x: Seq<char>, other: bool|
                other != asset ==> final(self).balance(x, other) == old(self).balance(x, other),
            final(self).total(!asset) == old(self).total(!asset),
    {
        let held = self.balance_of(account, asset);
        proof {
            lemma_balance_le_total(self.a@, account@);
            lemma_balance_le_total(self.b@, account@);
        }
        let total = if asset {
            total_of(&self.a)
        } else {
            total_of(&self.b)
        };
        if amount > u128::MAX - (total - held) {
            return Err(EngineError::Overflow);
        }
        if asset {
            assign(&mut self.a, account, amount);
        } else {
            assign(&mut self.b, account, amount);
        }
        Ok(())
    }
}

/// The sum of all amounts in `v`, which fits in a `u128`.
fn total_of(v: &Vec<Holding>) -> (r: u128)
    requires
        total_in(v@) <= u128::MAX,
    ensures
        r == total_in(v@),
{
    let mut acc: u128 = 0;
    let mut i: usize = 0;
    while i < v.len()
        invariant
            i <= v@.len(),
            total_in(v@) <= u128::MAX,
            acc == total_in(v@.subrange(0, i as int)),
        decreases v@.len() - i,
    {
        proof {
            assert(v@.subrange(0, i as int + 1).drop_last() =~= v@.subrange(0, i as int));
            lemma_prefix_total_le(v@, i as int + 1);
        }
        acc = acc + v[i].amount;
        i = i + 1;
    }
    proof {
        assert(v@.subrange(0, i as int) =~= v@);
    }
    acc
}

proof fn lemma_prefix_total_le(s: Seq<Holding>, k: int)
    requires
        0 <= k <= s.len(),
    ensures
        total_in(s.subrange(0, k)) <= total_in(s),
    decreases s.len(),
{
    if k < s.len() {
        assert(s.drop_last().subrange(0, k) =~= s.subrange(0, k));
        lemma_prefix_total_le(s.drop_last(), k);
    } else {
        assert(s.subrange(0, k) =~= s);
    }
}

} // verus!
