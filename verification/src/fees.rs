//! Fee and treasury accounting: per-client prepaid balances and the global
//! treasury accumulator. Settlement debits the paying client by the full
//! fee, keeps the configured skim in the treasury and hands the rest to the
//! caller for the executing daemon; every operation either applies fully or
//! rejects leaving the accounts untouched.

use vstd::prelude::*;

use crate::errors::Error;

verus! {

/// One client's prepaid account.
pub struct ClientAccount {
    pub owner: u64,
    pub balance: u64,
}

/// All client accounts and the treasury.
pub struct Fees {
    pub clients: Vec<ClientAccount>,
    pub treasury: u64,
}

/// The balance of `owner` (0 when no account exists); the first matching
/// account governs.
pub open spec fn balance_of(s: Seq<ClientAccount>, owner: u64) -> int
    decreases s.len(),
{
    if s.len() == 0 {
        0
    } else if s[0].owner == owner {
        s[0].balance as int
    } else {
        balance_of(s.drop_first(), owner)
    }
}

/// The sum of all client balances.
pub open spec fn sum_balances(s: Seq<ClientAccount>) -> int
    decreases s.len(),
{
    if s.len() == 0 {
        0
    } else {
        s[0].balance + sum_balances(s.drop_first())
    }
}

/// The treasury's share of a fee.
pub open spec fn skim_of(fee: int, skim_bps: int) -> int {
    fee * skim_bps / 10000
}

proof fn lemma_balance_of_first(s: Seq<ClientAccount>, i: int)
    requires
        0 <= i < s.len(),
        forall|j: int| 0 <= j < i ==> s[j].owner != s[i].owner,
    ensures
        balance_of(s, s[i].owner) == s[i].balance,
    decreases i,
{
    if i > 0 {
        lemma_balance_of_first(s.drop_first(), i - 1);
    }
}

proof fn lemma_balance_of_absent(s: Seq<ClientAccount>, owner: u64)
    requires
        forall|j: int| 0 <= j < s.len() ==> s[j].owner != owner,
    ensures
        balance_of(s, owner) == 0,
    decreases s.len(),
{
    if s.len() > 0 {
        lemma_balance_of_absent(s.drop_first(), owner);
    }
}

proof fn lemma_balance_of_update(s: Seq<ClientAccount>, i: int, a: ClientAccount)
    requires
        0 <= i < s.len(),
        a.owner == s[i].owner,
        forall|j: int| 0 <= j < i ==> s[j].owner != s[i].owner,
    ensures
        balance_of(s.update(i, a), s[i].owner) == a.balance,
        forall|o: u64| o != s[i].owner ==> balance_of(s.update(i, a), o) == balance_of(s, o),
    decreases i,
{
    let t = s.update(i, a);
    if i == 0 {
        assert(t.drop_first() =~= s.drop_first());
    } else {
        assert(t.drop_first() =~= s.drop_first().update(i - 1, a));
        lemma_balance_of_update(s.drop_first(), i - 1, a);
    }
    assert forall|o: u64| o != s[i].owner implies balance_of(t, o) == balance_of(s, o) by {
        assert(balance_of(t, o) == if t[0].owner == o {
            t[0].balance as int
        } else {
            balance_of(t.drop_first(), o)
        });
        assert(balance_of(s, o) == if s[0].owner == o {
            s[0].balance as int
        } else {
            balance_of(s.drop_first(), o)
        });
    }
    assert(balance_of(t, s[i].owner) == if t[0].owner == s[i].owner {
        t[0].balance as int
    } else {
        balance_of(t.drop_first(), s[i].owner)
    });
}

proof fn lemma_balance_of_push(s: Seq<ClientAccount>, a: ClientAccount)
    requires
        forall|j: int| 0 <= j < s.len() ==> s[j].owner != a.owner,
    ensures
        balance_of(s.push(a), a.owner) == a.balance,
        forall|o: u64| o != a.owner ==> balance_of(s.push(a), o) == balance_of(s, o),
    decreases s.len(),
{
    let t = s.push(a);
    if s.len() == 0 {
        assert(t[0] == a);
    } else {
        assert(t[0] == s[0]);
        assert(t.drop_first() =~= s.drop_first().push(a));
        lemma_balance_of_push(s.drop_first(), a);
    }
    assert forall|o: u64| o != a.owner implies balance_of(t, o) == balance_of(s, o) by {
        assert(balance_of(t, o) == if t[0].owner == o {
            t[0].balance as int
        } else {
            balance_of(t.drop_first(), o)
        });
        if s.len() > 0 {
            assert(balance_of(s, o) == if s[0].owner == o {
                s[0].balance as int
            } else {
                balance_of(s.drop_first(), o)
            });
        }
    }
    assert(balance_of(t, a.owner) == if t[0].owner == a.owner {
        t[0].balance as int
    } else {
        balance_of(t.drop_first(), a.owner)
    });
}

proof fn lemma_sum_update(s: Seq<ClientAccount>, i: int, a: ClientAccount)
    requires
        0 <= i < s.len(),
    ensures
        sum_balances(s.update(i, a)) == sum_balances(s) - s[i].balance + a.balance,
    decreases i,
{
    let t = s.update(i, a);
    if i == 0 {
        assert(t.drop_first() =~= s.drop_first());
    } else {
        assert(t.drop_first() =~= s.drop_first().update(i - 1, a));
        lemma_sum_update(s.drop_first(), i - 1, a);
    }
    assert(sum_balances(t) == t[0].balance + sum_balances(t.drop_first()));
    assert(sum_balances(s) == s[0].balance + sum_balances(s.drop_first()));
}

proof fn lemma_sum_push(s: Seq<ClientAccount>, a: ClientAccount)
    ensures
        sum_balances(s.push(a)) == sum_balances(s) + a.balance,
    decreases s.len(),
{
    let t = s.push(a);
    if s.len() == 0 {
        assert(t[0] == a);
        assert(t.drop_first() =~= Seq::<ClientAccount>::empty());
    } else {
        assert(t[0] == s[0]);
        assert(t.drop_first() =~= s.drop_first().push(a));
        lemma_sum_push(s.drop_first(), a);
        assert(sum_balances(s) == s[0].balance + sum_balances(s.drop_first()));
    }
    assert(sum_balances(t) == t[0].balance + sum_balances(t.drop_first()));
}

/// No client balance is ever negative: balances are unsigned, so the bound
/// holds in every state any sequence of operations can reach — settlement
/// refuses with `InsufficientBalance` rather than debiting past zero.
pub proof fn lemma_balance_never_negative(s: Seq<ClientAccount>, owner: u64)
    ensures
        balance_of(s, owner) >= 0,
    decreases s.len(),
{
    if s.len() > 0 {
        lemma_balance_never_negative(s.drop_first(), owner);
    }
}

impl Fees {
    /// An account book with no clients and an empty treasury.
    pub fn new() -> (r: Fees)
        ensures
            r.clients@.len() == 0,
            r.treasury == 0,
    {
        Fees { clients: Vec::new(), treasury: 0 }
    }

    fn find_client(&self, owner: u64) -> (r: Option<usize>)
        ensures
            match r {
                Some(i) => i < self.clients@.len() && self.clients@[i as int].owner == owner
                    && forall|j: int| 0 <= j < i ==> self.clients@[j].owner != owner,
                None => forall|j: int| 0 <= j < self.clients@.len() ==> self.clients@[j].owner
                    != owner,
            },
    {
        let mut i: usize = 0;
        while i < self.clients.len()
            invariant
                i <= self.clients@.len(),
                forall|j: int| 0 <= j < i ==> self.clients@[j].owner != owner,
            decreases self.clients@.len() - i,
        {
            if self.clients[i].owner == owner {
                return Some(i);
            }
            i = i + 1;
        }
        None
    }

    /// The client's current prepaid balance (0 without an account).
    pub fn balance(&self, owner: u64) -> (r: u64)
        ensures
            r == balance_of(self.clients@, owner),
    {
        match self.find_client(owner) {
            Some(i) => {
                proof {
                    lemma_balance_of_first(self.clients@, i as int);
                }
                self.clients[i].balance
            },
            None => {
                proof {
                    lemma_balance_of_absent(self.clients@, owner);
                }
                0
            },
        }
    }

    /// Adds prepaid funds to a client's account, opening it if needed.
    pub fn deposit(&mut self, owner: u64, amount: u64) -> (r: Result<(), Error>)
        requires
            balance_of(old(self).clients@, owner) + amount <= u64::MAX,
        ensures
            r is Ok,
            balance_of(final(self).clients@, owner) == balance_of(old(self).clients@, owner)
                + amount,
            forall|o: u64| o != owner ==> balance_of(final(self).clients@, o) == balance_of(
                old(self).clients@,
                o,
            ),
            sum_balances(final(self).clients@) == sum_balances(old(self).clients@) + amount,
            final(self).treasury == old(self).treasury,
    {
        match self.find_client(owner) {
            Some(i) => {
                proof {
                    lemma_balance_of_first(self.clients@, i as int);
                }
                let bal = self.clients[i].balance;
                let ghost oldc = self.clients@;
                self.clients[i] = ClientAccount { owner, balance: bal + amount };
                proof {
                    lemma_balance_of_update(
                        oldc,
                        i as int,
                        ClientAccount { owner, balance: (bal + amount) as u64 },
                    );
                    lemma_sum_update(
                        oldc,
                        i as int,
                        ClientAccount { owner, balance: (bal + amount) as u64 },
                    );
                }
                Ok(())
            },
            None => {
                proof {
                    lemma_balance_of_absent(self.clients@, owner);
                    lemma_balance_of_push(self.clients@, ClientAccount { owner, balance: amount });
                    lemma_sum_push(self.clients@, ClientAccount { owner, balance: amount });
                }
                self.clients.push(ClientAccount { owner, balance: amount });
                Ok(())
            },
        }
    }

    /// Returns prepaid funds to the client; rejected when the account does
    /// not cover the amount.
    pub fn withdraw(&mut self, owner: u64, amount: u64) -> (r: Result<(), Error>)
        ensures
            r is Ok <==> balance_of(old(self).clients@, owner) >= amount,
            r is Err ==> r == Err::<(), Error>(Error::InsufficientBalance) && *final(self) == *old(
                self,
            ),
            r is Ok ==> ({
                &&& balance_of(final(self).clients@, owner) == balance_of(old(self).clients@, owner)
                    - amount
                &&& forall|o: u64| o != owner ==> balance_of(final(self).clients@, o) == balance_of(
                    old(self).clients@,
                    o,
                )
                &&& sum_balances(final(self).clients@) == sum_balances(old(self).clients@) - amount
                &&& final(self).treasury == old(self).treasury
            }),
    {
        match self.find_client(owner) {
            Some(i) => {
                proof {
                    lemma_balance_of_first(self.clients@, i as int);
                }
                let bal = self.clients[i].balance;
                if bal < amount {
                    return Err(Error::InsufficientBalance);
                }
                let ghost oldc = self.clients@;
                self.clients[i] = ClientAccount { owner, balance: bal - amount };
                proof {
                    lemma_balance_of_update(
                        oldc,
                        i as int,
                        ClientAccount { owner, balance: (bal - amount) as u64 },
                    );
                    lemma_sum_update(
                        oldc,
                        i as int,
                        ClientAccount { owner, balance: (bal - amount) as u64 },
                    );
                }
                Ok(())
            },
            None => {
                proof {
                    lemma_balance_of_absent(self.clients@, owner);
                }
                if amount == 0 {
                    // A zero withdrawal succeeds against an absent account.
                    return Ok(());
                }
                Err(Error::InsufficientBalance)
            },
        }
    }

    /// Settles one execution fee: debits the client by `fee`, keeps the skim
    /// in the treasury, and returns the executing daemon's share. Rejected
    /// with `InsufficientBalance` exactly when the client cannot pay, in
    /// which case nothing changes.
    pub fn settle(&mut self, client: u64, fee: u64, skim_bps: u64) -> (r: Result<u64, Error>)
        requires
            skim_bps <= 10000,
            old(self).treasury + fee <= u64::MAX,
        ensures
            r is Ok <==> balance_of(old(self).clients@, client) >= fee,
            r is Err ==> r == Err::<u64, Error>(Error::InsufficientBalance) && *final(self) == *old(
                self,
            ),
            r matches Ok(share) ==> ({
                &&& share == fee - skim_of(fee as int, skim_bps as int)
                &&& balance_of(final(self).clients@, client) == balance_of(old(self).clients@, client)
                    - fee
                &&& forall|o: u64| o != client ==> balance_of(final(self).clients@, o) == balance_of(
                    old(self).clients@,
                    o,
                )
                &&& final(self).treasury == old(self).treasury + skim_of(
                    fee as int,
                    skim_bps as int,
                )
                &&& sum_balances(final(self).clients@) + final(self).treasury + share == sum_balances(
                    old(self).clients@,
                ) + old(self).treasury
            }),
    {
        let i = match self.find_client(client) {
            Some(i) => i,
            None => {
                proof {
                    lemma_balance_of_absent(self.clients@, client);
                }
                if fee == 0 {
                    // A zero fee is payable by an absent account.
                    return Ok(0);
                }
                return Err(Error::InsufficientBalance);
            },
        };
        proof {
            lemma_balance_of_first(self.clients@, i as int);
        }
        let bal = self.clients[i].balance;
        if bal < fee {
            return Err(Error::InsufficientBalance);
        }
        let skim = compute_skim(fee, skim_bps);
        let ghost oldc = self.clients@;
        self.clients[i] = ClientAccount { owner: client, balance: bal - fee };
        self.treasury = self.treasury + skim;
        proof {
            lemma_balance_of_update(
                oldc,
                i as int,
                ClientAccount { owner: client, balance: (bal - fee) as u64 },
            );
            lemma_sum_update(
                oldc,
                i as int,
                ClientAccount { owner: client, balance: (bal - fee) as u64 },
            );
        }
        Ok(fee - skim)
    }
}

/// The treasury's share of a fee at the given rate in basis points.
fn compute_skim(fee: u64, skim_bps: u64) -> (r: u64)
    requires
        skim_bps <= 10000,
    ensures
        r == skim_of(fee as int, skim_bps as int),
        r <= fee,
{
    proof {
        assert((fee as int) * (skim_bps as int) / 10000 <= fee as int && 0 <= (fee as int) * (
        skim_bps as int) / 10000) by (nonlinear_arith)
            requires
                skim_bps <= 10000,
        ;
    }
    let wide: u128 = (fee as u128) * (skim_bps as u128);
    (wide / 10000) as u64
}

} // verus!
