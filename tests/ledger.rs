use account_aggregate::ledger::{Balance, Ledger, RouteError};
use account_aggregate::models::{Account, AccountError, Command, CommandType, Event};
use account_aggregate::{Actor, Cause, Currency, Effect};

fn command(name: CommandType, client: u16, tx: u32, amount: Option<i128>) -> Command {
    Command { name, client, tx, amount: amount.map(Currency::from_units) }
}

fn balance(client: u16, available: i128, held: i128, total: i128, locked: bool) -> Balance {
    Balance {
        client,
        available: Currency::from_units(available),
        held: Currency::from_units(held),
        total: Currency::from_units(total),
        locked,
    }
}

fn ledger_after_deposit() -> Ledger {
    let mut ledger = Ledger::new();
    let r = ledger.route(command(CommandType::Deposit, 1, 10, Some(990000)));
    assert_eq!(r, Ok(()));
    ledger
}

#[test]
fn scenario_deposit() {
    let ledger = ledger_after_deposit();
    assert_eq!(ledger.snapshot(), vec![balance(1, 990000, 0, 990000, false)]);
}

#[test]
fn scenario_withdraw_beyond_available() {
    let mut ledger = ledger_after_deposit();
    let r = ledger.route(command(CommandType::Withdraw, 1, 11, Some(1500000)));
    assert_eq!(r, Err(RouteError::Rejected(AccountError::InsufficientFunds)));
    assert_eq!(ledger.snapshot(), vec![balance(1, 990000, 0, 990000, false)]);
}

#[test]
fn scenario_dispute_then_resolve() {
    let mut ledger = ledger_after_deposit();
    assert_eq!(ledger.route(command(CommandType::Dispute, 1, 10, None)), Ok(()));
    assert_eq!(ledger.snapshot(), vec![balance(1, 0, 990000, 990000, false)]);
    assert_eq!(ledger.route(command(CommandType::Resolve, 1, 10, None)), Ok(()));
    assert_eq!(ledger.snapshot(), vec![balance(1, 990000, 0, 990000, false)]);
}

#[test]
fn scenario_dispute_then_chargeback() {
    let mut ledger = ledger_after_deposit();
    assert_eq!(ledger.route(command(CommandType::Dispute, 1, 10, None)), Ok(()));
    assert_eq!(ledger.route(command(CommandType::Chargeback, 1, 10, None)), Ok(()));
    assert_eq!(ledger.snapshot(), vec![balance(1, 0, 0, 0, true)]);
    let r = ledger.route(command(CommandType::Deposit, 1, 12, Some(10000)));
    assert_eq!(r, Err(RouteError::Rejected(AccountError::LockedAccount)));
    assert_eq!(ledger.snapshot(), vec![balance(1, 0, 0, 0, true)]);
}

#[test]
fn totals_stay_sums_over_a_history() {
    let mut ledger = Ledger::new();
    let history = vec![
        command(CommandType::Deposit, 3, 1, Some(25000)),
        command(CommandType::Deposit, 3, 2, Some(7)),
        command(CommandType::Withdraw, 3, 3, Some(5000)),
        command(CommandType::Dispute, 3, 2, None),
        command(CommandType::Dispute, 3, 3, None),
        command(CommandType::Resolve, 3, 3, None),
        command(CommandType::Chargeback, 3, 2, None),
    ];
    for c in history {
        let _ = ledger.route(c);
        for b in ledger.snapshot() {
            assert_eq!(b.total.units(), b.available.units() + b.held.units());
        }
    }
    assert_eq!(ledger.snapshot(), vec![balance(3, 20000, 0, 20000, true)]);
}

#[test]
fn locked_account_stays_frozen() {
    let mut account = Account::new(4);
    for c in [
        command(CommandType::Deposit, 4, 1, Some(500)),
        command(CommandType::Dispute, 4, 1, None),
        command(CommandType::Chargeback, 4, 1, None),
    ] {
        let events = account.handle(c).unwrap();
        account.apply(events);
    }
    assert!(account.locked);
    for c in [
        command(CommandType::Deposit, 4, 2, Some(500)),
        command(CommandType::Withdraw, 4, 3, Some(0)),
        command(CommandType::Dispute, 4, 1, None),
        command(CommandType::Resolve, 4, 1, None),
        command(CommandType::Chargeback, 4, 1, None),
    ] {
        assert_eq!(account.handle(c), Err(AccountError::LockedAccount));
    }
    assert_eq!(account.total, Currency::from_units(0));
    assert_eq!(account.version, 4);
}

#[test]
fn handle_alone_changes_nothing() {
    let mut account = Account::new(5);
    let events = account.handle(command(CommandType::Deposit, 5, 1, Some(300))).unwrap();
    account.apply(events);
    let before = account.clone();
    let events = account.handle(command(CommandType::Withdraw, 5, 2, Some(100))).unwrap();
    assert_eq!(events, vec![Event::Debited { tx: 2, amount: Currency::from_units(100) }]);
    assert_eq!(account.available, before.available);
    assert_eq!(account.held, before.held);
    assert_eq!(account.total, before.total);
    assert_eq!(account.locked, before.locked);
    assert_eq!(account.events, before.events);
}

#[test]
fn repeated_deposit_refused() {
    let mut ledger = Ledger::new();
    let c = command(CommandType::Deposit, 6, 1, Some(4200));
    assert_eq!(ledger.route(c), Ok(()));
    assert_eq!(ledger.route(c), Err(RouteError::Rejected(AccountError::DuplicateTransaction)));
    assert_eq!(ledger.snapshot(), vec![balance(6, 4200, 0, 4200, false)]);
}

#[test]
fn same_tx_other_amount_is_no_duplicate() {
    let mut ledger = Ledger::new();
    assert_eq!(ledger.route(command(CommandType::Deposit, 6, 1, Some(4200))), Ok(()));
    assert_eq!(ledger.route(command(CommandType::Deposit, 6, 1, Some(100))), Ok(()));
    assert_eq!(ledger.snapshot(), vec![balance(6, 4300, 0, 4300, false)]);
}

#[test]
fn dispute_holds_first_genesis_amount() {
    let mut account = Account::new(7);
    for c in [
        command(CommandType::Deposit, 7, 9, Some(100)),
        command(CommandType::Deposit, 7, 9, Some(250)),
    ] {
        let events = account.handle(c).unwrap();
        account.apply(events);
    }
    let events = account.handle(command(CommandType::Dispute, 7, 9, None)).unwrap();
    assert_eq!(events, vec![Event::Held { tx: 9, amount: Currency::from_units(100) }]);
}

#[test]
fn dispute_of_withdrawal_holds_its_amount() {
    let mut ledger = Ledger::new();
    assert_eq!(ledger.route(command(CommandType::Deposit, 8, 1, Some(1000))), Ok(()));
    assert_eq!(ledger.route(command(CommandType::Withdraw, 8, 2, Some(400))), Ok(()));
    assert_eq!(ledger.route(command(CommandType::Dispute, 8, 2, None)), Ok(()));
    assert_eq!(ledger.snapshot(), vec![balance(8, 200, 400, 600, false)]);
}

#[test]
fn withdraw_of_exactly_available_accepted() {
    let mut ledger = Ledger::new();
    assert_eq!(ledger.route(command(CommandType::Deposit, 2, 1, Some(1000))), Ok(()));
    assert_eq!(ledger.route(command(CommandType::Withdraw, 2, 2, Some(1000))), Ok(()));
    assert_eq!(ledger.snapshot(), vec![balance(2, 0, 0, 0, false)]);
}

#[test]
fn chargeback_events_reverse_then_lock() {
    let mut account = Account::new(1);
    for c in [
        command(CommandType::Deposit, 1, 1, Some(70)),
        command(CommandType::Dispute, 1, 1, None),
    ] {
        let events = account.handle(c).unwrap();
        account.apply(events);
    }
    let events = account.handle(command(CommandType::Chargeback, 1, 1, None)).unwrap();
    assert_eq!(events, vec![Event::Reversed { tx: 1, amount: Currency::from_units(70) }, Event::Locked]);
}

#[test]
fn missing_amount_refused() {
    let mut ledger = Ledger::new();
    let r = ledger.route(command(CommandType::Deposit, 1, 1, None));
    assert_eq!(r, Err(RouteError::Rejected(AccountError::MissingAmount)));
    let r = ledger.route(command(CommandType::Withdraw, 1, 2, None));
    assert_eq!(r, Err(RouteError::Rejected(AccountError::MissingAmount)));
}

#[test]
fn unknown_transaction_and_dispute_refused() {
    let mut ledger = ledger_after_deposit();
    let r = ledger.route(command(CommandType::Dispute, 1, 99, None));
    assert_eq!(r, Err(RouteError::Rejected(AccountError::UnknownTransaction)));
    let r = ledger.route(command(CommandType::Resolve, 1, 10, None));
    assert_eq!(r, Err(RouteError::Rejected(AccountError::UnknownDispute)));
    let r = ledger.route(command(CommandType::Chargeback, 1, 10, None));
    assert_eq!(r, Err(RouteError::Rejected(AccountError::UnknownDispute)));
}

#[test]
fn duplicate_dispute_refused() {
    let mut ledger = ledger_after_deposit();
    assert_eq!(ledger.route(command(CommandType::Dispute, 1, 10, None)), Ok(()));
    let r = ledger.route(command(CommandType::Dispute, 1, 10, None));
    assert_eq!(r, Err(RouteError::Rejected(AccountError::DuplicateTransaction)));
}

#[test]
fn overflow_refused_without_change() {
    let mut ledger = Ledger::new();
    assert_eq!(ledger.route(command(CommandType::Deposit, 1, 1, Some(i128::MAX))), Ok(()));
    let r = ledger.route(command(CommandType::Deposit, 1, 2, Some(1)));
    assert_eq!(r, Err(RouteError::Overflow));
    assert_eq!(ledger.snapshot(), vec![balance(1, i128::MAX, 0, i128::MAX, false)]);
}

#[test]
fn refused_first_command_still_creates_account() {
    let mut ledger = Ledger::new();
    let r = ledger.route(command(CommandType::Withdraw, 9, 1, Some(1)));
    assert_eq!(r, Err(RouteError::Rejected(AccountError::InsufficientFunds)));
    assert_eq!(ledger.snapshot(), vec![balance(9, 0, 0, 0, false)]);
}

#[test]
fn snapshot_lists_clients_in_first_seen_order() {
    let mut ledger = Ledger::new();
    assert_eq!(ledger.route(command(CommandType::Deposit, 5, 1, Some(10))), Ok(()));
    assert_eq!(ledger.route(command(CommandType::Deposit, 2, 2, Some(20))), Ok(()));
    assert_eq!(ledger.route(command(CommandType::Deposit, 5, 3, Some(30))), Ok(()));
    assert_eq!(
        ledger.snapshot(),
        vec![balance(5, 40, 0, 40, false), balance(2, 20, 0, 20, false)]
    );
}

#[test]
fn command_names_its_client_and_events_their_version() {
    let c = command(CommandType::Resolve, 77, 1, None);
    assert_eq!(c.actor_id(), 77);
    assert_eq!(Event::Locked.version(), 1);
    assert_eq!(Currency::zero().units(), 0);
}
