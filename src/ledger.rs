//! Routes each command to the account of its client, creating accounts on
//! first sight, and reports every account's balances.

use std::collections::HashMap;

use vstd::prelude::*;

use crate::currency::Currency;
use crate::events::{Actor, Cause};
use crate::models::{
    decide,
    evolve,
    fits,
    fresh,
    lemma_decided_admissible,
    lemma_evolve_keeps_client,
    lemma_locked_refuses,
    lemma_repeated_deposit_refused,
    Account,
    AccountError,
    AccountView,
    ClientId,
    Command,
    CommandType,
};

verus! {

broadcast use vstd::std_specs::hash::group_hash_axioms;

/// Why the ledger did not apply a command.
#[derive(Clone, Copy, Debug, PartialEq, Eq, Structural)]
pub enum RouteError {
    /// The account refused the command.
    Rejected(AccountError),
    /// The command's events would take a balance, or the count of events,
    /// beyond the integer type that holds it.
    Overflow,
}

/// What the ledger reports of one account; its history stays inside.
#[derive(Clone, Copy, Debug, PartialEq, Eq, Structural)]
pub struct Balance {
    pub client: ClientId,
    pub available: Currency,
    pub held: Currency,
    pub total: Currency,
    pub locked: bool,
}

/// The report of an account in state `a`.
pub open spec fn balance_of(a: AccountView) -> Balance {
    Balance {
        client: a.client,
        available: Currency { units: a.available as i128 },
        held: Currency { units: a.held as i128 },
        total: Currency { units: a.total as i128 },
        locked: a.locked,
    }
}

/// The account that a command for `client` meets: the known one, else a
/// fresh one.
pub open spec fn account_for(m: Map<ClientId, AccountView>, client: ClientId) -> AccountView {
    if m.contains_key(client) {
        m[client]
    } else {
        fresh(client)
    }
}

/// What routing `c` through accounts `m` reports.
pub open spec fn route_outcome(m: Map<ClientId, AccountView>, c: Command) -> Result<(), RouteError> {
    let a = account_for(m, c.client);
    match decide(a, c) {
        Ok(events) => if fits(a, events) {
            Ok(())
        } else {
            Err(RouteError::Overflow)
        },
        Err(e) => Err(RouteError::Rejected(e)),
    }
}

/// The accounts after routing `c` through accounts `m`: the client's account
/// exists from now on, and has the command's events applied when the command
/// is accepted.
pub open spec fn routed(m: Map<ClientId, AccountView>, c: Command) -> Map<ClientId, AccountView> {
    let a = account_for(m, c.client);
    match decide(a, c) {
        Ok(events) => if fits(a, events) {
            m.insert(c.client, evolve(a, events))
        } else {
            m.insert(c.client, a)
        },
        Err(_) => m.insert(c.client, a),
    }
}

/// A command that a known account refuses leaves every account as it was.
pub proof fn lemma_refused_command_changes_nothing(m: Map<ClientId, AccountView>, c: Command)
    requires
        m.contains_key(c.client),
        decide(m[c.client], c) is Err,
    ensures
        routed(m, c) == m,
        route_outcome(m, c) == Err::<(), RouteError>(RouteError::Rejected(decide(m[c.client], c)->Err_0)),
{
    assert(routed(m, c) =~= m);
}

/// Once a client's account is locked, every command for it is refused and
/// no account changes.
pub proof fn lemma_locked_account_frozen(m: Map<ClientId, AccountView>, c: Command)
    requires
        m.contains_key(c.client),
        m[c.client].locked,
    ensures
        routed(m, c) == m,
        route_outcome(m, c) == Err::<(), RouteError>(RouteError::Rejected(AccountError::LockedAccount)),
{
    lemma_locked_refuses(m[c.client], c);
    lemma_refused_command_changes_nothing(m, c);
}

/// A deposit routed a second time, after it was accepted, is refused as a
/// duplicate and leaves every account as the first one left it.
pub proof fn lemma_repeated_deposit_leaves_ledger(m: Map<ClientId, AccountView>, c: Command)
    requires
        c.name == CommandType::Deposit,
        route_outcome(m, c) is Ok,
    ensures
        route_outcome(routed(m, c), c) == Err::<(), RouteError>(
            RouteError::Rejected(AccountError::DuplicateTransaction),
        ),
        routed(routed(m, c), c) == routed(m, c),
{
    let a = account_for(m, c.client);
    lemma_repeated_deposit_refused(a, c);
    lemma_refused_command_changes_nothing(routed(m, c), c);
}

/// The accounts of one ingestion run, kept in the order their clients were
/// first seen, with an index from client to position.
pub struct Ledger {
    accounts: Vec<Account>,
    index: HashMap<ClientId, usize>,
}

impl View for Ledger {
    type V = Map<ClientId, AccountView>;

    closed spec fn view(&self) -> Map<ClientId, AccountView> {
        Map::new(
            |c: ClientId| self.index@.contains_key(c),
            |c: ClientId| self.accounts@[self.index@[c] as int]@,
        )
    }
}

impl Ledger {
    /// The index and the accounts agree, and every account is well formed.
    pub closed spec fn wf(&self) -> bool {
        &&& forall|c: ClientId| #[trigger]
            self.index@.contains_key(c) ==> {
                &&& self.index@[c] < self.accounts@.len()
                &&& self.accounts@[self.index@[c] as int].client == c
            }
        &&& forall|i: int|
            0 <= i < self.accounts@.len() ==> {
                &&& self.index@.contains_key(#[trigger] self.accounts@[i].client)
                &&& self.index@[self.accounts@[i].client] == i
            }
        &&& forall|i: int| 0 <= i < self.accounts@.len() ==> (#[trigger] self.accounts@[i])@.wf()
    }

    /// A ledger with no accounts.
    pub fn new() -> (r: Ledger)
        ensures
            r.wf(),
            r@ == Map::<ClientId, AccountView>::empty(),
    {
        let r = Ledger { accounts: Vec::new(), index: HashMap::new() };
        assert(r@ =~= Map::<ClientId, AccountView>::empty());
        r
    }

    /// The position of `client`'s account, which is created fresh if the
    /// client is new.
    fn position(&mut self, client: ClientId) -> (p: usize)
        requires
            old(self).wf(),
        ensures
            final(self).wf(),
            p < final(self).accounts@.len(),
            final(self).index@.contains_key(client),
            final(self).index@[client] == p,
            final(self)@ == old(self)@.insert(client, account_for(old(self)@, client)),
    {
        match self.index.get(&client) {
            Some(p) => {
                let p = *p;
                assert(self@ =~= old(self)@.insert(client, account_for(old(self)@, client)));
                p
            },
            None => {
                let p = self.accounts.len();
                self.accounts.push(Account::new(client));
                self.index.insert(client, p);
                assert(self.accounts@[p as int].client == client);
                assert forall|c: ClientId| #[trigger] self.index@.contains_key(c) implies {
                    &&& self.index@[c] < self.accounts@.len()
                    &&& self.accounts@[self.index@[c] as int].client == c
                } by {
                    if c != client {
                        assert(old(self).index@.contains_key(c));
                    }
                }
                assert forall|i: int| 0 <= i < self.accounts@.len() implies {
                    &&& self.index@.contains_key(#[trigger] self.accounts@[i].client)
                    &&& self.index@[self.accounts@[i].client] == i
                } by {
                    if i < p {
                        assert(old(self).accounts@[i] == self.accounts@[i]);
                    }
                }
                assert(self@ =~= old(self)@.insert(client, account_for(old(self)@, client)));
                p
            },
        }
    }

    /// Hands `command` to its client's account; applies the events when the
    /// account accepts them, and otherwise changes nothing but that the client
    /// is known from now on.
    pub fn route(&mut self, command: Command) -> (r: Result<(), RouteError>)
        requires
            old(self).wf(),
        ensures
            final(self).wf(),
            r == route_outcome(old(self)@, command),
            final(self)@ == routed(old(self)@, command),
    {
        let client = command.actor_id();
        let p = self.position(client);
        let ghost known = self@;
        let ghost before = self.accounts@;
        let ghost a = account_for(old(self)@, client);
        assert(self@.contains_key(client) && self@[client] == a);
        assert(self.accounts@[p as int]@ == a);
        let decision = self.accounts[p].handle(command);
        match decision {
            Ok(events) => {
                if self.accounts[p].fits_events(&events) {
                    proof {
                        lemma_decided_admissible(a, command);
                    }
                    self.accounts[p].apply(events);
                    proof {
                        lemma_evolve_keeps_client(a, events@);
                    }
                    assert(self.accounts@ == before.update(p as int, self.accounts@[p as int]));
                    assert(self@ =~= known.insert(client, evolve(a, events@)));
                    Ok(())
                } else {
                    assert(self@ =~= known);
                    Err(RouteError::Overflow)
                }
            },
            Err(e) => {
                assert(self@ =~= known);
                Err(RouteError::Rejected(e))
            },
        }
    }

    /// Every known account's balances, one entry per client, in the order the
    /// clients were first seen.
    pub fn snapshot(&self) -> (r: Vec<Balance>)
        requires
            self.wf(),
        ensures
            forall|i: int|
                0 <= i < r@.len() ==> {
                    &&& self@.contains_key(#[trigger] r@[i].client)
                    &&& r@[i] == balance_of(self@[r@[i].client])
                },
            forall|c: ClientId|
                self@.contains_key(c) ==> exists|i: int| 0 <= i < r@.len() && #[trigger] r@[i].client == c,
            forall|i: int, j: int| 0 <= i < j < r@.len() ==> r@[i].client != r@[j].client,
    {
        let mut r: Vec<Balance> = Vec::new();
        let mut i: usize = 0;
        while i < self.accounts.len()
            invariant
                self.wf(),
                0 <= i <= self.accounts@.len(),
                r@.len() == i,
                forall|k: int| 0 <= k < i ==> #[trigger] r@[k] == balance_of(self.accounts@[k]@),
            decreases self.accounts.len() - i,
        {
            let a = &self.accounts[i];
            r.push(
                Balance {
                    client: a.client,
                    available: a.available,
                    held: a.held,
                    total: a.total,
                    locked: a.locked,
                },
            );
            i = i + 1;
        }
        assert forall|k: int| 0 <= k < r@.len() implies {
            &&& self@.contains_key(#[trigger] r@[k].client)
            &&& r@[k] == balance_of(self@[r@[k].client])
        } by {
            assert(self.accounts@[k].client == r@[k].client);
        }
        assert forall|c: ClientId| self@.contains_key(c) implies exists|k: int|
            0 <= k < r@.len() && #[trigger] r@[k].client == c by {
            let k = self.index@[c] as int;
            assert(r@[k].client == c);
        }
        assert forall|k: int, j: int| 0 <= k < j < r@.len() implies r@[k].client != r@[j].client by {
            assert(self.accounts@[k].client == r@[k].client);
            assert(self.accounts@[j].client == r@[j].client);
        }
        r
    }


    /// In every account the ledger holds, `total` is exactly
    /// `available + held`.
    pub proof fn lemma_totals_are_sums(&self)
        requires
            self.wf(),
        ensures
            forall|c: ClientId| #[trigger]
                self@.contains_key(c) ==> self@[c].total == self@[c].available + self@[c].held,
    {
        assert forall|c: ClientId| #[trigger] self@.contains_key(c) implies self@[c].total
            == self@[c].available + self@[c].held by {
            assert(self.accounts@[self.index@[c] as int]@.wf());
        }
    }

}

} // verus!
