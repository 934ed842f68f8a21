use citrea_fullnode::diff::{
    account_diff_size, calc_diff_size, collect_changes, record_entry, AccountChange, AccountFacts,
    Address, DiffError, JournalChange,
};
use citrea_fullnode::fee::{
    decrease_caller_balance, l1_fee, post_execution_output, ChargeError, CitreaExternal,
    CitreaExternalContext, NotEnoughFunds, Word,
};
use citrea_fullnode::notifier::{Notification, Notifier};
use citrea_fullnode::types::{Digest, HeadSlot};

fn word(n: u64) -> Word {
    Word::from_u64(n)
}

fn addr(n: u128) -> Address {
    Address { hi: 0, lo: n }
}

fn no_facts() -> AccountFacts {
    AccountFacts { storage_slots: 0, stored_code_len: None, state_code_len: None }
}

#[test]
fn context_carries_the_fee_rate() {
    let context = CitreaExternalContext::new(7);
    assert_eq!(context.l1_fee_rate(), 7);
    assert_eq!(CitreaExternalContext::new(0).l1_fee_rate(), 0);
    assert_eq!(CitreaExternalContext::new(u64::MAX).l1_fee_rate(), u64::MAX);
}

#[test]
fn word_from_u64_fills_the_lowest_limb() {
    assert_eq!(Word::from_u64(42), Word { l0: 42, l1: 0, l2: 0, l3: 0 });
}

#[test]
fn l1_fee_is_size_times_rate() {
    assert_eq!(l1_fee(100, 3), word(300));
    assert_eq!(l1_fee(0, 3), word(0));
    assert_eq!(l1_fee(188, 0), word(0));
    // (2^32)^2 = 2^64 carries into the second limb.
    assert_eq!(l1_fee(1 << 32, 1 << 32), Word { l0: 0, l1: 1, l2: 0, l3: 0 });
    // (2^64 - 1)^2 = 2^128 - 2^65 + 1
    assert_eq!(
        l1_fee(u64::MAX as usize, u64::MAX),
        Word { l0: 1, l1: 0xffff_ffff_ffff_fffe, l2: 0, l3: 0 }
    );
}

#[test]
fn balance_is_decreased_by_the_amount() {
    let mut balance = word(1000);
    assert_eq!(decrease_caller_balance(&mut balance, word(300)), None);
    assert_eq!(balance, word(700));
    assert_eq!(decrease_caller_balance(&mut balance, word(700)), None);
    assert_eq!(balance, word(0));
    // 2^64 - 1 borrows from the second limb.
    let mut wide = Word { l0: 0, l1: 1, l2: 0, l3: 0 };
    assert_eq!(decrease_caller_balance(&mut wide, word(1)), None);
    assert_eq!(wide, Word { l0: u64::MAX, l1: 0, l2: 0, l3: 0 });
}

#[test]
fn balance_that_is_too_small_stays() {
    let mut balance = word(5);
    assert_eq!(decrease_caller_balance(&mut balance, word(6)), Some(ChargeError::OutOfFunds));
    assert_eq!(balance, word(5));
    let mut low = Word { l0: u64::MAX, l1: 0, l2: 0, l3: 0 };
    let high = Word { l0: 0, l1: 0, l2: 0, l3: 1 };
    assert_eq!(decrease_caller_balance(&mut low, high), Some(ChargeError::OutOfFunds));
    assert_eq!(low, Word { l0: u64::MAX, l1: 0, l2: 0, l3: 0 });
}

#[test]
fn successful_transaction_pays_the_fee() {
    let context = CitreaExternalContext::new(3);
    let mut balance = word(1000);
    assert_eq!(post_execution_output(&context, false, 188, &mut balance), Ok(()));
    assert_eq!(balance, word(1000 - 564));
}

#[test]
fn failed_transaction_pays_nothing() {
    let context = CitreaExternalContext::new(3);
    let mut balance = word(10);
    assert_eq!(post_execution_output(&context, true, 188, &mut balance), Ok(()));
    assert_eq!(balance, word(10));
}

#[test]
fn fee_above_the_balance_is_reported() {
    let context = CitreaExternalContext::new(3);
    let mut balance = word(563);
    assert_eq!(
        post_execution_output(&context, false, 188, &mut balance),
        Err(NotEnoughFunds { fee: word(564) })
    );
    assert_eq!(balance, word(563));
    let mut exact = word(564);
    assert_eq!(post_execution_output(&context, false, 188, &mut exact), Ok(()));
    assert_eq!(exact, word(0));
}

fn sample_journal() -> Vec<JournalChange> {
    vec![
        JournalChange::NonceChange { address: addr(1) },
        JournalChange::BalanceTransfer { from: addr(1), to: addr(2) },
        JournalChange::StorageChange { address: addr(1), key: word(10) },
        JournalChange::Other,
        JournalChange::StorageChange { address: addr(1), key: word(10) },
        JournalChange::StorageChange { address: addr(1), key: word(11) },
        JournalChange::CodeChange { address: addr(2) },
        JournalChange::AccountCreated { address: addr(3) },
        JournalChange::StorageChange { address: addr(3), key: word(1) },
        JournalChange::AccountDestroyed { address: addr(3) },
        JournalChange::AccountDestroyed { address: addr(4) },
    ]
}

#[test]
fn journal_is_collected_by_account() {
    let changes = collect_changes(&sample_journal());
    assert_eq!(
        changes,
        vec![
            AccountChange {
                address: addr(1),
                created: false,
                destroyed: false,
                nonce_changed: true,
                code_changed: false,
                balance_changed: true,
                storage_changes: vec![word(10), word(11)],
            },
            AccountChange {
                address: addr(2),
                created: false,
                destroyed: false,
                nonce_changed: false,
                code_changed: true,
                balance_changed: true,
                storage_changes: vec![],
            },
            AccountChange {
                address: addr(4),
                created: false,
                destroyed: true,
                nonce_changed: false,
                code_changed: false,
                balance_changed: false,
                storage_changes: vec![],
            },
        ]
    );
    assert_eq!(collect_changes(&vec![]), vec![]);
}

#[test]
fn account_created_and_destroyed_starts_afresh() {
    let mut list = Vec::new();
    record_entry(&mut list, JournalChange::AccountCreated { address: addr(9) });
    assert_eq!(list.len(), 1);
    assert!(list[0].created && list[0].nonce_changed);
    record_entry(&mut list, JournalChange::AccountDestroyed { address: addr(9) });
    assert!(list.is_empty());
    record_entry(&mut list, JournalChange::AccountDestroyed { address: addr(9) });
    assert_eq!(list.len(), 1);
    assert!(list[0].destroyed && !list[0].created && !list[0].nonce_changed);
    record_entry(&mut list, JournalChange::AccountCreated { address: addr(9) });
    record_entry(&mut list, JournalChange::AccountDestroyed { address: addr(9) });
    assert!(list.is_empty());
}

#[test]
fn diff_size_sums_the_accounts() {
    let changes = collect_changes(&sample_journal());
    let facts = vec![
        no_facts(),
        AccountFacts { storage_slots: 9, stored_code_len: Some(1), state_code_len: Some(100) },
        AccountFacts { storage_slots: 3, stored_code_len: Some(50), state_code_len: Some(7) },
    ];
    // 20 + 8 + 32 + 2 * 64
    assert_eq!(account_diff_size(&changes[0], &facts[0]), Some(188));
    // 20 + 32 + 32 + 100
    assert_eq!(account_diff_size(&changes[1], &facts[1]), Some(184));
    // 20 + 3 * 64 + 8 + 32 + 32 + 50
    assert_eq!(account_diff_size(&changes[2], &facts[2]), Some(334));
    assert_eq!(calc_diff_size(&changes, &facts), Ok(706));
    assert_eq!(calc_diff_size(&vec![], &vec![]), Ok(0));
}

#[test]
fn diff_size_of_single_changes() {
    let sizes: Vec<(JournalChange, usize)> = vec![
        (JournalChange::NonceChange { address: addr(1) }, 28),
        (JournalChange::BalanceTransfer { from: addr(1), to: addr(1) }, 52),
        (JournalChange::BalanceTransfer { from: addr(1), to: addr(2) }, 104),
        (JournalChange::StorageChange { address: addr(1), key: word(5) }, 84),
        (JournalChange::CodeChange { address: addr(1) }, 52),
        (JournalChange::AccountCreated { address: addr(1) }, 28),
        (JournalChange::AccountDestroyed { address: addr(1) }, 92),
        (JournalChange::Other, 0),
    ];
    for (entry, expected) in sizes {
        let changes = collect_changes(&vec![entry]);
        let facts: Vec<AccountFacts> = changes.iter().map(|_| no_facts()).collect();
        assert_eq!(calc_diff_size(&changes, &facts), Ok(expected), "{:?}", entry);
    }
}

#[test]
fn code_of_a_destroyed_account_counts_as_stored() {
    let changes = collect_changes(&vec![
        JournalChange::CodeChange { address: addr(1) },
        JournalChange::AccountDestroyed { address: addr(1) },
    ]);
    let with_code = AccountFacts { storage_slots: 0, stored_code_len: Some(10), state_code_len: Some(99) };
    assert_eq!(calc_diff_size(&changes, &vec![with_code]), Ok(102));
    let unknown = AccountFacts { storage_slots: 1, stored_code_len: None, state_code_len: Some(99) };
    assert_eq!(calc_diff_size(&changes, &vec![unknown]), Ok(156));
}

#[test]
fn diff_size_refuses_facts_that_do_not_match() {
    let changes = collect_changes(&sample_journal());
    assert_eq!(calc_diff_size(&changes, &vec![no_facts()]), Err(DiffError::FactsMismatch));
    assert_eq!(calc_diff_size(&vec![], &vec![no_facts()]), Err(DiffError::FactsMismatch));
}

#[test]
fn diff_size_that_does_not_fit_is_an_overflow() {
    let changes = collect_changes(&vec![
        JournalChange::AccountDestroyed { address: addr(1) },
        JournalChange::CodeChange { address: addr(2) },
    ]);
    let huge = AccountFacts { storage_slots: usize::MAX, stored_code_len: None, state_code_len: None };
    assert_eq!(account_diff_size(&changes[0], &huge), None);
    assert_eq!(calc_diff_size(&changes, &vec![huge, no_facts()]), Err(DiffError::Overflow));
    let long = AccountFacts { storage_slots: 0, stored_code_len: None, state_code_len: Some(usize::MAX - 60) };
    assert_eq!(account_diff_size(&changes[1], &long), Some(usize::MAX - 8));
    assert_eq!(calc_diff_size(&changes, &vec![no_facts(), long]), Err(DiffError::Overflow));
    let fits = AccountFacts { storage_slots: 0, stored_code_len: None, state_code_len: Some(usize::MAX - 144) };
    assert_eq!(calc_diff_size(&changes, &vec![no_facts(), fits]), Ok(usize::MAX));
}

fn note(height: u64) -> Notification {
    Notification { height, root: Digest::new(height as u128, 0) }
}

#[test]
fn every_subscriber_gets_each_message_once() {
    let mut n = Notifier::new(4);
    let a = n.subscribe();
    let b = n.subscribe();
    assert_eq!((a, b), (0, 1));
    assert_eq!(n.subscribers(), 2);
    n.publish(note(1));
    n.publish(note(2));
    assert_eq!(n.receive(a), Some(note(1)));
    assert_eq!(n.receive(a), Some(note(2)));
    assert_eq!(n.receive(a), None);
    assert_eq!(n.receive(b), Some(note(1)));
    n.publish(note(3));
    assert_eq!(n.receive(b), Some(note(2)));
    assert_eq!(n.receive(b), Some(note(3)));
    assert_eq!(n.receive(b), None);
    assert_eq!(n.receive(a), Some(note(3)));
}

#[test]
fn subscriber_attached_after_a_commit_does_not_see_it() {
    let mut n = Notifier::new(4);
    n.publish(note(1));
    let late = n.subscribe();
    assert_eq!(n.receive(late), None);
    n.publish(note(2));
    assert_eq!(n.receive(late), Some(note(2)));
    assert_eq!(n.receive(late), None);
}

#[test]
fn full_buffer_drops_the_oldest_message() {
    let mut n = Notifier::new(2);
    let id = n.subscribe();
    n.publish(note(1));
    n.publish(note(2));
    n.publish(note(3));
    assert_eq!(n.receive(id), Some(note(2)));
    assert_eq!(n.receive(id), Some(note(3)));
    assert_eq!(n.receive(id), None);
    let mut single = Notifier::new(1);
    let only = single.subscribe();
    single.publish(note(7));
    single.publish(note(8));
    assert_eq!(single.receive(only), Some(note(8)));
    let mut none = Notifier::new(0);
    let deaf = none.subscribe();
    none.publish(note(1));
    assert_eq!(none.receive(deaf), None);
}

#[test]
fn unknown_subscriber_receives_nothing() {
    let mut n = Notifier::new(2);
    n.publish(note(1));
    assert_eq!(n.receive(0), None);
    let id = n.subscribe();
    assert_eq!(n.receive(id + 1), None);
}

#[test]
fn one_message_is_published_for_each_commit() {
    let mut n = Notifier::new(8);
    let id = n.subscribe();
    let commits = vec![
        HeadSlot { height: 4, hash: Digest::new(1, 1), root: Digest::new(40, 0) },
        HeadSlot { height: 5, hash: Digest::new(2, 2), root: Digest::new(50, 0) },
    ];
    n.publish_commits(&commits);
    n.publish_commits(&vec![]);
    assert_eq!(n.receive(id), Some(Notification { height: 4, root: Digest::new(40, 0) }));
    assert_eq!(n.receive(id), Some(Notification { height: 5, root: Digest::new(50, 0) }));
    assert_eq!(n.receive(id), None);
}
