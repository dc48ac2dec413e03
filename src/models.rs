//! The `Account` aggregate: commands, the events they produce, and the
//! balances that the events fold into.

use vstd::prelude::*;

use crate::currency::Currency;
use crate::events::{Actor, Cause, Effect};

verus! {

/// Counts the events applied to an `Account`.
pub type Version = u32;

/// Identifies a client, and so the client's `Account`.
pub type ClientId = u16;

/// Identifies the deposit or withdrawal that a command refers to.
pub type TransactionId = u32;

/// The kind of a `Command`.
#[derive(Clone, Copy, Debug, PartialEq, Eq, Structural)]
pub enum CommandType {
    Deposit,
    Withdraw,
    Dispute,
    Resolve,
    Chargeback,
}

/// An intent to change one client's account.
///
/// `amount` is present for deposits and withdrawals only.
#[derive(Clone, Copy, Debug, PartialEq, Eq, Structural)]
pub struct Command {
    pub name: CommandType,
    pub client: ClientId,
    pub tx: TransactionId,
    pub amount: Option<Currency>,
}

impl Cause for Command {
    type ActorId = ClientId;

    fn actor_id(&self) -> (r: ClientId)
        ensures
            r == self.client,
    {
        self.client
    }
}

/// An accepted change to an account.
#[derive(Clone, Copy, Debug, PartialEq, Eq, Structural)]
pub enum Event {
    Credited { tx: TransactionId, amount: Currency },
    Debited { tx: TransactionId, amount: Currency },
    Held { tx: TransactionId, amount: Currency },
    Released { tx: TransactionId, amount: Currency },
    Reversed { tx: TransactionId, amount: Currency },
    Locked,
}

impl Effect for Event {
    type Version = Version;

    /// The version of the event format; every event has the first one.
    fn version(&self) -> (r: Version)
        ensures
            r == 1,
    {
        1
    }
}

/// Why a command is refused.
#[derive(Clone, Copy, Debug, PartialEq, Eq, Structural)]
pub enum AccountError {
    /// The account is locked: it takes no more commands.
    LockedAccount,
    /// A deposit or withdrawal came without an amount.
    MissingAmount,
    /// The event the command would produce is already in the log.
    DuplicateTransaction,
    /// A withdrawal asks for more than is available.
    InsufficientFunds,
    /// A dispute names a transaction with no deposit or withdrawal.
    UnknownTransaction,
    /// A resolve or chargeback names a transaction that was never disputed.
    UnknownDispute,
}

/// The amount of `e` when it is the deposit or withdrawal of `tx`.
pub open spec fn genesis_amount(e: Event, tx: TransactionId) -> Option<Currency> {
    match e {
        Event::Credited { tx: t, amount } => if t == tx { Some(amount) } else { None },
        Event::Debited { tx: t, amount } => if t == tx { Some(amount) } else { None },
        _ => None,
    }
}

/// The amount of `e` when it holds funds for a dispute of `tx`.
pub open spec fn held_amount(e: Event, tx: TransactionId) -> Option<Currency> {
    match e {
        Event::Held { tx: t, amount } => if t == tx { Some(amount) } else { None },
        _ => None,
    }
}

/// What `pick` gives for the first event of `log`, in log order, for which it
/// gives anything.
pub open spec fn first_match(log: Seq<Event>, pick: spec_fn(Event) -> Option<Currency>) -> Option<
    Currency,
>
    decreases log.len(),
{
    if log.len() == 0 {
        None
    } else {
        match first_match(log.drop_last(), pick) {
            Some(a) => Some(a),
            None => pick(log.last()),
        }
    }
}

/// The amount of the first deposit or withdrawal of `tx` in `log`.
pub open spec fn first_genesis(log: Seq<Event>, tx: TransactionId) -> Option<Currency> {
    first_match(log, |e: Event| genesis_amount(e, tx))
}

/// The amount of the first hold of `tx` in `log`.
pub open spec fn first_hold(log: Seq<Event>, tx: TransactionId) -> Option<Currency> {
    first_match(log, |e: Event| held_amount(e, tx))
}

/// A match found in a prefix of `log` is the first match of all of `log`.
pub proof fn lemma_first_match_prefix(
    log: Seq<Event>,
    pick: spec_fn(Event) -> Option<Currency>,
    j: int,
)
    requires
        0 <= j <= log.len(),
        first_match(log.take(j), pick) is Some,
    ensures
        first_match(log, pick) == first_match(log.take(j), pick),
    decreases log.len(),
{
    if j == log.len() {
        assert(log.take(j) =~= log);
    } else {
        assert(log.drop_last().take(j) =~= log.take(j));
        lemma_first_match_prefix(log.drop_last(), pick, j);
    }
}

/// One step further in a scan that has found nothing so far.
pub proof fn lemma_first_match_step(
    log: Seq<Event>,
    pick: spec_fn(Event) -> Option<Currency>,
    i: int,
)
    requires
        0 <= i < log.len(),
        first_match(log.take(i), pick) is None,
    ensures
        first_match(log.take(i + 1), pick) == pick(log[i]),
{
    assert(log.take(i + 1).drop_last() =~= log.take(i));
}

/// Summary of one client's history: the balances its events fold into.
///
/// `total` is always `available + held`; `version` counts the events in
/// `events`, which is the append-only log of everything applied.
#[derive(Clone, Debug)]
pub struct Account {
    pub version: Version,
    pub client: ClientId,
    pub available: Currency,
    pub held: Currency,
    pub total: Currency,
    pub locked: bool,
    pub events: Vec<Event>,
}

/// The mathematical state of an `Account`.
pub struct AccountView {
    pub client: ClientId,
    pub available: int,
    pub held: int,
    pub total: int,
    pub locked: bool,
    pub version: nat,
    pub log: Seq<Event>,
}

impl View for Account {
    type V = AccountView;

    open spec fn view(&self) -> AccountView {
        AccountView {
            client: self.client,
            available: self.available.units as int,
            held: self.held.units as int,
            total: self.total.units as int,
            locked: self.locked,
            version: self.version as nat,
            log: self.events@,
        }
    }
}

impl AccountView {
    /// `total` is the sum of the two balances and `version` counts the log.
    pub open spec fn wf(self) -> bool {
        &&& self.total == self.available + self.held
        &&& self.version == self.log.len()
    }

    /// The balances and the version fit the types an `Account` holds them in.
    pub open spec fn in_range(self) -> bool {
        &&& i128::MIN <= self.available <= i128::MAX
        &&& i128::MIN <= self.held <= i128::MAX
        &&& i128::MIN <= self.total <= i128::MAX
        &&& self.version <= u32::MAX
    }
}

/// A fresh account of `client`: nothing available, nothing held, unlocked,
/// and no history.
pub open spec fn fresh(client: ClientId) -> AccountView {
    AccountView {
        client,
        available: 0,
        held: 0,
        total: 0,
        locked: false,
        version: 0,
        log: Seq::empty(),
    }
}

/// What handling `c` yields for an account in state `a`: the events to apply,
/// or why `c` is refused.
pub open spec fn decide(a: AccountView, c: Command) -> Result<Seq<Event>, AccountError> {
    if a.locked {
        Err(AccountError::LockedAccount)
    } else {
        match c.name {
            CommandType::Deposit => match c.amount {
                None => Err(AccountError::MissingAmount),
                Some(amount) => {
                    let e = Event::Credited { tx: c.tx, amount };
                    if a.log.contains(e) {
                        Err(AccountError::DuplicateTransaction)
                    } else {
                        Ok(seq![e])
                    }
                },
            },
            CommandType::Withdraw => match c.amount {
                None => Err(AccountError::MissingAmount),
                Some(amount) => {
                    let e = Event::Debited { tx: c.tx, amount };
                    if a.log.contains(e) {
                        Err(AccountError::DuplicateTransaction)
                    } else if amount.units > a.available {
                        Err(AccountError::InsufficientFunds)
                    } else {
                        Ok(seq![e])
                    }
                },
            },
            CommandType::Dispute => match first_genesis(a.log, c.tx) {
                None => Err(AccountError::UnknownTransaction),
                Some(amount) => {
                    let e = Event::Held { tx: c.tx, amount };
                    if a.log.contains(e) {
                        Err(AccountError::DuplicateTransaction)
                    } else {
                        Ok(seq![e])
                    }
                },
            },
            CommandType::Resolve => match first_hold(a.log, c.tx) {
                None => Err(AccountError::UnknownDispute),
                Some(amount) => {
                    let e = Event::Released { tx: c.tx, amount };
                    if a.log.contains(e) {
                        Err(AccountError::DuplicateTransaction)
                    } else {
                        Ok(seq![e])
                    }
                },
            },
            CommandType::Chargeback => match first_hold(a.log, c.tx) {
                None => Err(AccountError::UnknownDispute),
                Some(amount) => {
                    let e = Event::Reversed { tx: c.tx, amount };
                    if a.log.contains(e) {
                        Err(AccountError::DuplicateTransaction)
                    } else {
                        Ok(seq![e, Event::Locked])
                    }
                },
            },
        }
    }
}

/// How `e` moves the available and the held balance.
pub open spec fn movement(e: Event) -> (int, int) {
    match e {
        Event::Credited { amount, .. } => (amount.units as int, 0),
        Event::Debited { amount, .. } => (-amount.units, 0),
        Event::Held { amount, .. } => (-amount.units, amount.units as int),
        Event::Released { amount, .. } => (amount.units as int, -amount.units),
        Event::Reversed { amount, .. } => (0, -amount.units),
        Event::Locked => (0, 0),
    }
}

/// State `a` with the one event `e` applied.
pub open spec fn step(a: AccountView, e: Event) -> AccountView {
    let available = a.available + movement(e).0;
    let held = a.held + movement(e).1;
    AccountView {
        client: a.client,
        available,
        held,
        total: available + held,
        locked: a.locked || e is Locked,
        version: a.version + 1,
        log: a.log.push(e),
    }
}

/// State `a` with `events` applied in order.
pub open spec fn evolve(a: AccountView, events: Seq<Event>) -> AccountView
    decreases events.len(),
{
    if events.len() == 0 {
        a
    } else {
        step(evolve(a, events.drop_last()), events.last())
    }
}

/// Applying `events` to `a` keeps every intermediate state in range.
pub open spec fn fits(a: AccountView, events: Seq<Event>) -> bool {
    forall|i: int| 0 < i <= events.len() ==> (#[trigger] evolve(a, events.take(i))).in_range()
}

/// Applying events never changes whose account it is.
pub proof fn lemma_evolve_keeps_client(a: AccountView, events: Seq<Event>)
    ensures
        evolve(a, events).client == a.client,
    decreases events.len(),
{
    if events.len() > 0 {
        lemma_evolve_keeps_client(a, events.drop_last());
    }
}

/// `events` may be applied to an account in state `a`: nothing is applied to
/// a locked account, and a `Locked` event can only be the last one.
pub open spec fn admissible(a: AccountView, events: Seq<Event>) -> bool {
    &&& a.locked ==> events.len() == 0
    &&& forall|i: int| 0 <= i < events.len() - 1 ==> !(#[trigger] events[i] is Locked)
}

/// Whatever `decide` accepts is admissible to apply.
pub proof fn lemma_decided_admissible(a: AccountView, c: Command)
    requires
        decide(a, c) is Ok,
    ensures
        admissible(a, decide(a, c)->Ok_0),
{
}

/// Applying admissible events to a locked account changes nothing.
pub proof fn lemma_locked_apply_changes_nothing(a: AccountView, events: Seq<Event>)
    requires
        a.locked,
        admissible(a, events),
    ensures
        evolve(a, events) == a,
{
}

/// However many events are applied to a well-formed account, `total` stays
/// exactly `available + held` and `version` counts the log.
pub proof fn lemma_total_is_sum(a: AccountView, events: Seq<Event>)
    requires
        a.wf(),
    ensures
        evolve(a, events).wf(),
    decreases events.len(),
{
    if events.len() > 0 {
        lemma_total_is_sum(a, events.drop_last());
    }
}

/// A locked account refuses every command.
pub proof fn lemma_locked_refuses(a: AccountView, c: Command)
    requires
        a.locked,
    ensures
        decide(a, c) == Err::<Seq<Event>, AccountError>(AccountError::LockedAccount),
{
}

/// No sequence of events unlocks a locked account.
pub proof fn lemma_locked_stays(a: AccountView, events: Seq<Event>)
    requires
        a.locked,
    ensures
        evolve(a, events).locked,
    decreases events.len(),
{
    if events.len() > 0 {
        lemma_locked_stays(a, events.drop_last());
    }
}

/// An accepted chargeback leaves the account locked.
pub proof fn lemma_chargeback_locks(a: AccountView, c: Command)
    requires
        c.name == CommandType::Chargeback,
        decide(a, c) is Ok,
    ensures
        evolve(a, decide(a, c)->Ok_0).locked,
{
    let events = decide(a, c)->Ok_0;
    assert(events.drop_last().drop_last() =~= Seq::<Event>::empty());
    assert(events.last() == Event::Locked);
}

/// A deposit that was accepted and applied is refused as a duplicate when it
/// comes again with the same transaction and amount.
pub proof fn lemma_repeated_deposit_refused(a: AccountView, c: Command)
    requires
        c.name == CommandType::Deposit,
        decide(a, c) is Ok,
    ensures
        decide(evolve(a, decide(a, c)->Ok_0), c) == Err::<Seq<Event>, AccountError>(
            AccountError::DuplicateTransaction,
        ),
{
    let events = decide(a, c)->Ok_0;
    let e = Event::Credited { tx: c.tx, amount: c.amount->Some_0 };
    assert(events == seq![e]);
    assert(events.drop_last() =~= Seq::<Event>::empty());
    assert(evolve(a, events.drop_last()) == a);
    let b = evolve(a, events);
    assert(b == step(a, e));
    assert(b.log[a.log.len() as int] == e);
    assert(b.log.contains(e));
}

impl Account {
    /// A fresh account of `client`.
    pub fn new(client: ClientId) -> (r: Account)
        ensures
            r@ == fresh(client),
    {
        Account {
            version: 0,
            client,
            available: Currency::zero(),
            held: Currency::zero(),
            total: Currency::zero(),
            locked: false,
            events: Vec::new(),
        }
    }

    /// The log entry sequence of one event.
    fn single(event: Event) -> (r: Vec<Event>)
        ensures
            r@ == seq![event],
    {
        let r = vec![event];
        assert(r@ =~= seq![event]);
        r
    }

    /// The events of a chargeback: the reversal, then the lock.
    fn reversal(event: Event) -> (r: Vec<Event>)
        ensures
            r@ == seq![event, Event::Locked],
    {
        let r = vec![event, Event::Locked];
        assert(r@ =~= seq![event, Event::Locked]);
        r
    }

    /// Whether `events` can be applied to this account with every balance and
    /// the version staying within the integer types that hold them.
    pub fn fits_events(&self, events: &Vec<Event>) -> (r: bool)
        requires
            self@.wf(),
        ensures
            r == fits(self@, events@),
    {
        let mut available: i128 = self.available.units;
        let mut held: i128 = self.held.units;
        let mut version: u32 = self.version;
        let mut i: usize = 0;
        while i < events.len()
            invariant
                0 <= i <= events.len(),
                self@.wf(),
                evolve(self@, events@.take(i as int)).available == available,
                evolve(self@, events@.take(i as int)).held == held,
                evolve(self@, events@.take(i as int)).version == version,
                forall|k: int|
                    0 < k <= i ==> (#[trigger] evolve(self@, events@.take(k))).in_range(),
            decreases events.len() - i,
        {
            proof {
                assert(events@.take(i + 1).drop_last() =~= events@.take(i as int));
            }
            let (next_available, next_held) = match events[i] {
                Event::Credited { amount, .. } => (available.checked_add(amount.units), Some(held)),
                Event::Debited { amount, .. } => (available.checked_sub(amount.units), Some(held)),
                Event::Held { amount, .. } => (
                    available.checked_sub(amount.units),
                    held.checked_add(amount.units),
                ),
                Event::Released { amount, .. } => (
                    available.checked_add(amount.units),
                    held.checked_sub(amount.units),
                ),
                Event::Reversed { amount, .. } => (Some(available), held.checked_sub(amount.units)),
                Event::Locked => (Some(available), Some(held)),
            };
            match (next_available, next_held) {
                (Some(a), Some(h)) => {
                    if a.checked_add(h).is_none() || version == u32::MAX {
                        assert(!evolve(self@, events@.take(i + 1)).in_range());
                        return false;
                    }
                    available = a;
                    held = h;
                    version = version + 1;
                },
                _ => {
                    assert(!evolve(self@, events@.take(i + 1)).in_range());
                    return false;
                },
            }
            i = i + 1;
        }
        true
    }

    /// Whether an event equal to `event` is in the log.
    fn has_event(&self, event: &Event) -> (r: bool)
        ensures
            r == self.events@.contains(*event),
    {
        let mut i: usize = 0;
        while i < self.events.len()
            invariant
                0 <= i <= self.events.len(),
                forall|j: int| 0 <= j < i ==> self.events@[j] != *event,
            decreases self.events.len() - i,
        {
            if self.events[i] == *event {
                return true;
            }
            i = i + 1;
        }
        false
    }

    /// The amount of the first deposit or withdrawal of `key` in the log.
    fn find_genesis_amount(&self, key: TransactionId) -> (r: Option<Currency>)
        ensures
            r == first_genesis(self.events@, key),
    {
        let ghost pick = |e: Event| genesis_amount(e, key);
        let mut i: usize = 0;
        while i < self.events.len()
            invariant
                0 <= i <= self.events.len(),
                pick == (|e: Event| genesis_amount(e, key)),
                first_match(self.events@.take(i as int), pick) is None,
            decreases self.events.len() - i,
        {
            proof {
                lemma_first_match_step(self.events@, pick, i as int);
            }
            match self.events[i] {
                Event::Credited { tx, amount } => {
                    if tx == key {
                        proof {
                            lemma_first_match_prefix(self.events@, pick, i + 1);
                        }
                        return Some(amount);
                    }
                },
                Event::Debited { tx, amount } => {
                    if tx == key {
                        proof {
                            lemma_first_match_prefix(self.events@, pick, i + 1);
                        }
                        return Some(amount);
                    }
                },
                _ => {},
            }
            i = i + 1;
        }
        assert(self.events@.take(i as int) =~= self.events@);
        None
    }

    /// The amount of the first hold of `key` in the log.
    fn find_dispute_amount(&self, key: TransactionId) -> (r: Option<Currency>)
        ensures
            r == first_hold(self.events@, key),
    {
        let ghost pick = |e: Event| held_amount(e, key);
        let mut i: usize = 0;
        while i < self.events.len()
            invariant
                0 <= i <= self.events.len(),
                pick == (|e: Event| held_amount(e, key)),
                first_match(self.events@.take(i as int), pick) is None,
            decreases self.events.len() - i,
        {
            proof {
                lemma_first_match_step(self.events@, pick, i as int);
            }
            if let Event::Held { tx, amount } = self.events[i] {
                if tx == key {
                    proof {
                        lemma_first_match_prefix(self.events@, pick, i + 1);
                    }
                    return Some(amount);
                }
            }
            i = i + 1;
        }
        assert(self.events@.take(i as int) =~= self.events@);
        None
    }
}

impl Actor<Command, Event> for Account {
    type Id = ClientId;
    type Error = AccountError;

    open spec fn inv(&self) -> bool {
        self@.wf()
    }

    open spec fn decision(&self, command: Command) -> Result<Seq<Event>, AccountError> {
        decide(self@, command)
    }

    open spec fn can_take(&self, events: Seq<Event>) -> bool {
        admissible(self@, events) && fits(self@, events)
    }

    open spec fn applied(&self, events: Seq<Event>, next: &Account) -> bool {
        next@ == evolve(self@, events)
    }

    /// Decides what `command` does to this account, without changing it.
    fn handle(&self, command: Command) -> (r: Result<Vec<Event>, AccountError>) {
        if self.locked {
            return Err(AccountError::LockedAccount);
        }
        match command.name {
            CommandType::Deposit => match command.amount {
                None => Err(AccountError::MissingAmount),
                Some(amount) => {
                    let event = Event::Credited { tx: command.tx, amount };
                    if self.has_event(&event) {
                        Err(AccountError::DuplicateTransaction)
                    } else {
                        Ok(Self::single(event))
                    }
                },
            },
            CommandType::Withdraw => match command.amount {
                None => Err(AccountError::MissingAmount),
                Some(amount) => {
                    let event = Event::Debited { tx: command.tx, amount };
                    if self.has_event(&event) {
                        Err(AccountError::DuplicateTransaction)
                    } else if amount.units > self.available.units {
                        Err(AccountError::InsufficientFunds)
                    } else {
                        Ok(Self::single(event))
                    }
                },
            },
            CommandType::Dispute => match self.find_genesis_amount(command.tx) {
                None => Err(AccountError::UnknownTransaction),
                Some(amount) => {
                    let event = Event::Held { tx: command.tx, amount };
                    if self.has_event(&event) {
                        Err(AccountError::DuplicateTransaction)
                    } else {
                        Ok(Self::single(event))
                    }
                },
            },
            CommandType::Resolve => match self.find_dispute_amount(command.tx) {
                None => Err(AccountError::UnknownDispute),
                Some(amount) => {
                    let event = Event::Released { tx: command.tx, amount };
                    if self.has_event(&event) {
                        Err(AccountError::DuplicateTransaction)
                    } else {
                        Ok(Self::single(event))
                    }
                },
            },
            CommandType::Chargeback => match self.find_dispute_amount(command.tx) {
                None => Err(AccountError::UnknownDispute),
                Some(amount) => {
                    let event = Event::Reversed { tx: command.tx, amount };
                    if self.has_event(&event) {
                        Err(AccountError::DuplicateTransaction)
                    } else {
                        Ok(Self::reversal(event))
                    }
                },
            },
        }
    }

    /// Folds `events` into the balances, in order, and appends them to the log.
    fn apply(&mut self, events: Vec<Event>)
        ensures
            final(self)@.total == final(self)@.available + final(self)@.held,
            old(self).locked ==> final(self)@ == old(self)@,
    {
        let ghost start = self@;
        let mut i: usize = 0;
        while i < events.len()
            invariant
                0 <= i <= events.len(),
                start == old(self)@,
                fits(start, events@),
                self@ == evolve(start, events@.take(i as int)),
                self@.wf(),
            decreases events.len() - i,
        {
            let event = events[i];
            proof {
                assert(events@.take(i + 1).drop_last() =~= events@.take(i as int));
                assert(evolve(start, events@.take(i + 1)).in_range());
            }
            match event {
                Event::Credited { amount, .. } => {
                    self.available = Currency { units: self.available.units + amount.units };
                },
                Event::Debited { amount, .. } => {
                    self.available = Currency { units: self.available.units - amount.units };
                },
                Event::Held { amount, .. } => {
                    self.available = Currency { units: self.available.units - amount.units };
                    self.held = Currency { units: self.held.units + amount.units };
                },
                Event::Released { amount, .. } => {
                    self.held = Currency { units: self.held.units - amount.units };
                    self.available = Currency { units: self.available.units + amount.units };
                },
                Event::Reversed { amount, .. } => {
                    self.held = Currency { units: self.held.units - amount.units };
                },
                Event::Locked => {
                    self.locked = true;
                },
            }
            self.total = Currency { units: self.available.units + self.held.units };
            self.version = self.version + 1;
            self.events.push(event);
            i = i + 1;
        }
        assert(events@.take(i as int) =~= events@);
    }
}

} // verus!
