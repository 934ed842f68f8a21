//! The size of the state that a transaction changed, as its journal
//! shows it.

use vstd::prelude::*;
use crate::fee::Word;

verus! {

/// The address of an account: 160 bits, the upper 32 and the lower 128.
#[derive(Clone, Copy, Debug, PartialEq, Eq, Structural, Hash)]
pub struct Address {
    pub hi: u32,
    pub lo: u128,
}

/// One entry of a transaction's journal, reduced to what the size of the
/// change depends on.
#[derive(Clone, Copy, Debug, PartialEq, Eq, Structural)]
pub enum JournalChange {
    NonceChange { address: Address },
    BalanceTransfer { from: Address, to: Address },
    StorageChange { address: Address, key: Word },
    CodeChange { address: Address },
    AccountCreated { address: Address },
    AccountDestroyed { address: Address },
    /// An entry that changes nothing that is counted.
    Other,
}

/// What a transaction changed of one account.
#[derive(Debug, PartialEq, Eq)]
pub struct AccountChange {
    pub address: Address,
    pub created: bool,
    pub destroyed: bool,
    pub nonce_changed: bool,
    pub code_changed: bool,
    pub balance_changed: bool,
    /// The storage keys that were written, each once.
    pub storage_changes: Vec<Word>,
}

/// The mathematical content of an account's changes.
pub struct ChangeView {
    pub created: bool,
    pub destroyed: bool,
    pub nonce_changed: bool,
    pub code_changed: bool,
    pub balance_changed: bool,
    pub storage: Set<Word>,
}

impl View for AccountChange {
    type V = ChangeView;

    open spec fn view(&self) -> ChangeView {
        ChangeView {
            created: self.created,
            destroyed: self.destroyed,
            nonce_changed: self.nonce_changed,
            code_changed: self.code_changed,
            balance_changed: self.balance_changed,
            storage: self.storage_changes@.to_set(),
        }
    }
}

/// The changes of an account that nothing has touched.
pub open spec fn untouched() -> ChangeView {
    ChangeView {
        created: false,
        destroyed: false,
        nonce_changed: false,
        code_changed: false,
        balance_changed: false,
        storage: Set::empty(),
    }
}

/// The changes that `m` holds for `a`, or those of an untouched account.
pub open spec fn entry(m: Map<Address, ChangeView>, a: Address) -> ChangeView {
    if m.contains_key(a) {
        m[a]
    } else {
        untouched()
    }
}

/// The changes by account after one more journal entry.
///
/// An account that is created and then destroyed was there for the
/// transaction only and is forgotten; it starts afresh if it is touched
/// again. The creation of an account counts as a change of its nonce.
pub open spec fn record(m: Map<Address, ChangeView>, e: JournalChange) -> Map<
    Address,
    ChangeView,
> {
    match e {
        JournalChange::NonceChange { address } => m.insert(
            address,
            ChangeView { nonce_changed: true, ..entry(m, address) },
        ),
        JournalChange::BalanceTransfer { from, to } => {
            let sent = m.insert(from, ChangeView { balance_changed: true, ..entry(m, from) });
            sent.insert(to, ChangeView { balance_changed: true, ..entry(sent, to) })
        },
        JournalChange::StorageChange { address, key } => m.insert(
            address,
            ChangeView { storage: entry(m, address).storage.insert(key), ..entry(m, address) },
        ),
        JournalChange::CodeChange { address } => m.insert(
            address,
            ChangeView { code_changed: true, ..entry(m, address) },
        ),
        JournalChange::AccountCreated { address } => m.insert(
            address,
            ChangeView { created: true, nonce_changed: true, ..entry(m, address) },
        ),
        JournalChange::AccountDestroyed { address } => if entry(m, address).created {
            m.remove(address)
        } else {
            m.insert(address, ChangeView { destroyed: true, ..entry(m, address) })
        },
        JournalChange::Other => m,
    }
}

/// The changes by account that a whole journal makes.
pub open spec fn changes_of(journal: Seq<JournalChange>) -> Map<Address, ChangeView>
    decreases journal.len(),
{
    if journal.len() == 0 {
        Map::empty()
    } else {
        record(changes_of(journal.drop_last()), journal.last())
    }
}

/// Whether `s` holds changes for the account `a`.
pub open spec fn has_account(s: Seq<AccountChange>, a: Address) -> bool {
    exists|i: int| 0 <= i < s.len() && (#[trigger] s[i]).address == a
}

/// The place in `s` of the changes for the account `a`, where it has any.
pub open spec fn place_of(s: Seq<AccountChange>, a: Address) -> int {
    choose|i: int| 0 <= i < s.len() && (#[trigger] s[i]).address == a
}

/// Whether no account occurs twice in `s`.
pub open spec fn distinct(s: Seq<AccountChange>) -> bool {
    forall|i: int, j: int|
        0 <= i < j < s.len() ==> (#[trigger] s[i]).address != (#[trigger] s[j]).address
}

/// Whether no account occurs twice in `s` and no storage key twice in an
/// account.
pub open spec fn accounts_wf(s: Seq<AccountChange>) -> bool {
    &&& distinct(s)
    &&& forall|i: int| 0 <= i < s.len() ==> (#[trigger] s[i]).storage_changes@.no_duplicates()
}

/// The changes by account that the list `s` holds.
pub open spec fn accounts_map(s: Seq<AccountChange>) -> Map<Address, ChangeView> {
    Map::new(|a: Address| has_account(s, a), |a: Address| s[place_of(s, a)]@)
}

/// The place of an account's changes is the place of its address.
pub proof fn lemma_place(s: Seq<AccountChange>, i: int)
    requires
        distinct(s),
        0 <= i < s.len(),
    ensures
        has_account(s, s[i].address),
        place_of(s, s[i].address) == i,
        accounts_map(s).contains_key(s[i].address),
        accounts_map(s)[s[i].address] == s[i]@,
{
    let a = s[i].address;
    let k = place_of(s, a);
    assert(s[k].address == a);
    if k < i {
        assert(s[k].address != s[i].address);
    } else if i < k {
        assert(s[i].address != s[k].address);
    }
}

/// Replacing an account's changes in the list replaces them in the map.
pub proof fn lemma_map_update(s: Seq<AccountChange>, i: int, x: AccountChange)
    requires
        distinct(s),
        0 <= i < s.len(),
        x.address == s[i].address,
    ensures
        distinct(s.update(i, x)),
        accounts_map(s.update(i, x)) == accounts_map(s).insert(x.address, x@),
{
    let t = s.update(i, x);
    assert forall|p: int, q: int| 0 <= p < q < t.len() implies (#[trigger] t[p]).address != (
    #[trigger] t[q]).address by {
        assert(s[p].address != s[q].address);
    }
    let left = accounts_map(t);
    let right = accounts_map(s).insert(x.address, x@);
    assert forall|a: Address| left.contains_key(a) == right.contains_key(a) by {
        if has_account(s, a) {
            let k = place_of(s, a);
            assert(t[k].address == a);
        }
        if has_account(t, a) {
            let k = place_of(t, a);
            assert(s[k].address == a);
        }
    }
    assert forall|a: Address| left.contains_key(a) implies left[a] == right[a] by {
        let k = place_of(t, a);
        lemma_place(t, k);
        lemma_place(s, k);
    }
    assert(left =~= right);
}

/// Adding the changes of a new account to the list adds them to the map.
pub proof fn lemma_map_push(s: Seq<AccountChange>, x: AccountChange)
    requires
        distinct(s),
        !has_account(s, x.address),
    ensures
        distinct(s.push(x)),
        accounts_map(s.push(x)) == accounts_map(s).insert(x.address, x@),
{
    let t = s.push(x);
    assert forall|p: int, q: int| 0 <= p < q < t.len() implies (#[trigger] t[p]).address != (
    #[trigger] t[q]).address by {
        if q < s.len() {
            assert(s[p].address != s[q].address);
        } else {
            assert(s[p].address != x.address);
        }
    }
    let left = accounts_map(t);
    let right = accounts_map(s).insert(x.address, x@);
    assert(t[s.len() as int].address == x.address);
    assert forall|a: Address| left.contains_key(a) == right.contains_key(a) by {
        if has_account(s, a) {
            let k = place_of(s, a);
            assert(t[k].address == a);
        }
        if has_account(t, a) {
            let k = place_of(t, a);
            if k < s.len() {
                assert(s[k].address == a);
            }
        }
    }
    assert forall|a: Address| left.contains_key(a) implies left[a] == right[a] by {
        let k = place_of(t, a);
        lemma_place(t, k);
        if k < s.len() {
            lemma_place(s, k);
        }
    }
    assert(left =~= right);
}

/// Taking an account's changes out of the list takes them out of the map.
pub proof fn lemma_map_remove(s: Seq<AccountChange>, i: int)
    requires
        distinct(s),
        0 <= i < s.len(),
    ensures
        distinct(s.remove(i)),
        accounts_map(s.remove(i)) == accounts_map(s).remove(s[i].address),
{
    let t = s.remove(i);
    assert forall|p: int, q: int| 0 <= p < q < t.len() implies (#[trigger] t[p]).address != (
    #[trigger] t[q]).address by {
        let sp = if p < i { p } else { p + 1 };
        let sq = if q < i { q } else { q + 1 };
        assert(s[sp].address != s[sq].address);
    }
    let left = accounts_map(t);
    let right = accounts_map(s).remove(s[i].address);
    assert forall|a: Address| left.contains_key(a) == right.contains_key(a) by {
        if has_account(s, a) && a != s[i].address {
            let k = place_of(s, a);
            let tk = if k < i { k } else { k - 1 };
            assert(t[tk].address == a);
        }
        if has_account(t, a) {
            let k = place_of(t, a);
            let sk = if k < i { k } else { k + 1 };
            assert(s[sk].address == a);
            if sk < i {
                assert(s[sk].address != s[i].address);
            } else {
                assert(s[i].address != s[sk].address);
            }
        }
    }
    assert forall|a: Address| left.contains_key(a) implies left[a] == right[a] by {
        let k = place_of(t, a);
        let sk = if k < i { k } else { k + 1 };
        lemma_place(t, k);
        lemma_place(s, sk);
    }
    assert(left =~= right);
}


/// Whether `keys` holds `key`.
fn holds_key(keys: &Vec<Word>, key: Word) -> (r: bool)
    ensures
        r == keys@.contains(key),
{
    let mut i: usize = 0;
    while i < keys.len()
        invariant
            i <= keys.len(),
            forall|k: int| 0 <= k < i ==> keys@[k] != key,
        decreases keys.len() - i,
    {
        if keys[i] == key {
            return true;
        }
        i += 1;
    }
    false
}

/// The place of the changes for the account `a`, if the list has any.
fn find_account(list: &Vec<AccountChange>, a: Address) -> (r: Option<usize>)
    ensures
        match r {
            Some(i) => i < list@.len() && list@[i as int].address == a,
            None => !has_account(list@, a),
        },
{
    let mut i: usize = 0;
    while i < list.len()
        invariant
            i <= list.len(),
            forall|k: int| 0 <= k < i ==> (#[trigger] list@[k]).address != a,
        decreases list.len() - i,
    {
        if list[i].address == a {
            return Some(i);
        }
        i += 1;
    }
    None
}

/// The place of the changes for the account `a`, which are added as those
/// of an untouched account where the list has none.
fn touch(list: &mut Vec<AccountChange>, a: Address) -> (i: usize)
    requires
        accounts_wf(old(list)@),
    ensures
        accounts_wf(final(list)@),
        i < final(list)@.len(),
        final(list)@[i as int].address == a,
        final(list)@[i as int]@ == entry(accounts_map(old(list)@), a),
        accounts_map(final(list)@) == accounts_map(old(list)@).insert(
            a,
            entry(accounts_map(old(list)@), a),
        ),
{
    match find_account(list, a) {
        Some(i) => {
            proof {
                lemma_place(list@, i as int);
                assert(accounts_map(list@) =~= accounts_map(list@).insert(
                    a,
                    entry(accounts_map(list@), a),
                ));
            }
            i
        },
        None => {
            let blank = AccountChange {
                address: a,
                created: false,
                destroyed: false,
                nonce_changed: false,
                code_changed: false,
                balance_changed: false,
                storage_changes: Vec::new(),
            };
            proof {
                assert(blank@.storage =~= Set::<Word>::empty());
                lemma_map_push(list@, blank);
            }
            let i = list.len();
            list.push(blank);
            i
        },
    }
}

/// Takes one journal entry into the list of changes by account.
pub fn record_entry(list: &mut Vec<AccountChange>, e: JournalChange)
    requires
        accounts_wf(old(list)@),
    ensures
        accounts_wf(final(list)@),
        accounts_map(final(list)@) == record(accounts_map(old(list)@), e),
{
    let ghost m = accounts_map(list@);
    match e {
        JournalChange::NonceChange { address } => {
            let i = touch(list, address);
            let ghost mid = list@;
            list[i].nonce_changed = true;
            proof {
                assert(list@ =~= mid.update(i as int, list@[i as int]));
                lemma_map_update(mid, i as int, list@[i as int]);
                assert(accounts_map(list@) =~= record(m, e));
            }
        },
        JournalChange::BalanceTransfer { from, to } => {
            let i = touch(list, from);
            let ghost mid = list@;
            list[i].balance_changed = true;
            proof {
                assert(list@ =~= mid.update(i as int, list@[i as int]));
                lemma_map_update(mid, i as int, list@[i as int]);
                assert(accounts_map(list@) =~= m.insert(
                    from,
                    ChangeView { balance_changed: true, ..entry(m, from) },
                ));
            }
            let ghost sent = accounts_map(list@);
            let j = touch(list, to);
            let ghost mid = list@;
            list[j].balance_changed = true;
            proof {
                assert(list@ =~= mid.update(j as int, list@[j as int]));
                lemma_map_update(mid, j as int, list@[j as int]);
                assert(accounts_map(list@) =~= sent.insert(
                    to,
                    ChangeView { balance_changed: true, ..entry(sent, to) },
                ));
            }
        },
        JournalChange::StorageChange { address, key } => {
            let i = touch(list, address);
            let ghost mid = list@;
            let ghost keys = mid[i as int].storage_changes@;
            if !holds_key(&list[i].storage_changes, key) {
                list[i].storage_changes.push(key);
                proof {
                    keys.lemma_push_to_set_commute(key);
                    assert(keys.push(key).to_set() =~= keys.to_set().insert(key));
                }
            } else {
                proof {
                    assert(keys.to_set() =~= keys.to_set().insert(key));
                }
            }
            proof {
                assert(list@ =~= mid.update(i as int, list@[i as int]));
                lemma_map_update(mid, i as int, list@[i as int]);
                assert(accounts_map(list@) =~= record(m, e));
            }
        },
        JournalChange::CodeChange { address } => {
            let i = touch(list, address);
            let ghost mid = list@;
            list[i].code_changed = true;
            proof {
                assert(list@ =~= mid.update(i as int, list@[i as int]));
                lemma_map_update(mid, i as int, list@[i as int]);
                assert(accounts_map(list@) =~= record(m, e));
            }
        },
        JournalChange::AccountCreated { address } => {
            let i = touch(list, address);
            let ghost mid = list@;
            list[i].created = true;
            list[i].nonce_changed = true;
            proof {
                assert(list@ =~= mid.update(i as int, list@[i as int]));
                lemma_map_update(mid, i as int, list@[i as int]);
                assert(accounts_map(list@) =~= record(m, e));
            }
        },
        JournalChange::AccountDestroyed { address } => {
            let i = touch(list, address);
            let ghost mid = list@;
            if list[i].created {
                proof {
                    lemma_map_remove(mid, i as int);
                }
                let _ = list.remove(i);
                proof {
                    assert(accounts_map(list@) =~= record(m, e));
                }
            } else {
                list[i].destroyed = true;
                proof {
                    assert(list@ =~= mid.update(i as int, list@[i as int]));
                    lemma_map_update(mid, i as int, list@[i as int]);
                    assert(accounts_map(list@) =~= record(m, e));
                }
            }
        },
        JournalChange::Other => {},
    }
}

/// The changes by account that the journal `journal` makes.
pub fn collect_changes(journal: &Vec<JournalChange>) -> (list: Vec<AccountChange>)
    ensures
        accounts_wf(list@),
        accounts_map(list@) == changes_of(journal@),
{
    let mut list: Vec<AccountChange> = Vec::new();
    let mut i: usize = 0;
    proof {
        assert(journal@.take(0) =~= Seq::<JournalChange>::empty());
        assert(accounts_map(list@) =~= Map::<Address, ChangeView>::empty());
    }
    while i < journal.len()
        invariant
            i <= journal.len(),
            accounts_wf(list@),
            accounts_map(list@) == changes_of(journal@.take(i as int)),
        decreases journal.len() - i,
    {
        proof {
            let next = journal@.take(i as int + 1);
            assert(next.drop_last() =~= journal@.take(i as int));
            assert(next.last() == journal@[i as int]);
        }
        record_entry(&mut list, journal[i]);
        i += 1;
    }
    proof {
        assert(journal@.take(journal@.len() as int) =~= journal@);
    }
    list
}

/// The bytes that an address takes.
pub const ADDRESS_SIZE: usize = 20;

/// The bytes that a nonce takes.
pub const NONCE_SIZE: usize = 8;

/// The bytes that a balance takes.
pub const BALANCE_SIZE: usize = 32;

/// The bytes that a code hash takes.
pub const CODE_HASH_SIZE: usize = 32;

/// The bytes that a storage slot takes: its key and its value.
pub const SLOT_SIZE: usize = 64;

/// What the size of an account's changes depends on beside the journal.
#[derive(Clone, Copy, Debug, PartialEq, Eq, Structural)]
pub struct AccountFacts {
    /// How many storage slots the state holds for the account.
    pub storage_slots: usize,
    /// The length of the account's code in the database, or `None` where
    /// the database does not know the account.
    pub stored_code_len: Option<usize>,
    /// The length of the account's code in the state, or `None` where
    /// the state holds no code for it.
    pub state_code_len: Option<usize>,
}

/// Why the size of a change could not be given.
#[derive(Clone, Copy, Debug, PartialEq, Eq, Structural)]
pub enum DiffError {
    /// There is not one set of facts for each account.
    FactsMismatch,
    /// The size does not fit the machine's word.
    Overflow,
}

/// A length that may be absent, as a number.
pub open spec fn len_or_zero(len: Option<usize>) -> nat {
    match len {
        Some(n) => n as nat,
        None => 0,
    }
}

/// The bytes that the changes `c` of one account take.
///
/// A destroyed account counts with all that it held: every storage slot,
/// nonce, balance, code hash and code. Any other account counts with what
/// was changed.
pub open spec fn account_size(c: ChangeView, f: AccountFacts) -> nat {
    if c.destroyed {
        ADDRESS_SIZE as nat + SLOT_SIZE as nat * f.storage_slots as nat + NONCE_SIZE as nat
            + BALANCE_SIZE as nat + CODE_HASH_SIZE as nat + len_or_zero(f.stored_code_len)
    } else {
        ADDRESS_SIZE as nat + (if c.nonce_changed {
            NONCE_SIZE as nat
        } else {
            0
        }) + (if c.balance_changed {
            BALANCE_SIZE as nat
        } else {
            0
        }) + SLOT_SIZE as nat * c.storage.len() + (if c.code_changed {
            CODE_HASH_SIZE as nat + len_or_zero(f.state_code_len)
        } else {
            0
        })
    }
}

/// The bytes that the changes of all accounts take, given the facts of
/// each account at the same place.
pub open spec fn total_size(changes: Seq<AccountChange>, facts: Seq<AccountFacts>) -> nat
    decreases changes.len(),
{
    if changes.len() == 0 || facts.len() == 0 {
        0
    } else {
        total_size(changes.drop_last(), facts.drop_last()) + account_size(
            changes.last()@,
            facts.last(),
        )
    }
}

/// The size of the first accounts is at most the size of all.
pub proof fn lemma_total_grows(changes: Seq<AccountChange>, facts: Seq<AccountFacts>, k: int)
    requires
        changes.len() == facts.len(),
        0 <= k <= changes.len(),
    ensures
        total_size(changes.take(k), facts.take(k)) <= total_size(changes, facts),
    decreases changes.len(),
{
    if k == changes.len() {
        assert(changes.take(k) =~= changes);
        assert(facts.take(k) =~= facts);
    } else {
        lemma_total_grows(changes.drop_last(), facts.drop_last(), k);
        assert(changes.drop_last().take(k) =~= changes.take(k));
        assert(facts.drop_last().take(k) =~= facts.take(k));
    }
}

/// The bytes that the changes of one account take, or `None` where they
/// do not fit the machine's word.
pub fn account_diff_size(change: &AccountChange, facts: &AccountFacts) -> (r: Option<usize>)
    requires
        change.storage_changes@.no_duplicates(),
    ensures
        r == if account_size(change@, *facts) <= usize::MAX {
            Some(account_size(change@, *facts) as usize)
        } else {
            None::<usize>
        },
{
    proof {
        change.storage_changes@.unique_seq_to_set();
    }
    let mut size: u128 = ADDRESS_SIZE as u128;
    if change.destroyed {
        size = size + SLOT_SIZE as u128 * facts.storage_slots as u128;
        size = size + NONCE_SIZE as u128;
        size = size + BALANCE_SIZE as u128;
        size = size + CODE_HASH_SIZE as u128;
        match facts.stored_code_len {
            Some(n) => {
                size = size + n as u128;
            },
            None => {},
        }
    } else {
        if change.nonce_changed {
            size = size + NONCE_SIZE as u128;
        }
        if change.balance_changed {
            size = size + BALANCE_SIZE as u128;
        }
        size = size + SLOT_SIZE as u128 * change.storage_changes.len() as u128;
        if change.code_changed {
            size = size + CODE_HASH_SIZE as u128;
            match facts.state_code_len {
                Some(n) => {
                    size = size + n as u128;
                },
                None => {},
            }
        }
    }
    if size > usize::MAX as u128 {
        None
    } else {
        Some(size as usize)
    }
}

/// The bytes of state that a transaction changed: the sum over the
/// accounts in `changes`, with `facts` holding the facts of each account
/// at the same place.
pub fn calc_diff_size(changes: &Vec<AccountChange>, facts: &Vec<AccountFacts>) -> (r: Result<
    usize,
    DiffError,
>)
    requires
        accounts_wf(changes@),
    ensures
        r == if changes@.len() != facts@.len() {
            Err::<usize, DiffError>(DiffError::FactsMismatch)
        } else if total_size(changes@, facts@) > usize::MAX {
            Err::<usize, DiffError>(DiffError::Overflow)
        } else {
            Ok::<usize, DiffError>(total_size(changes@, facts@) as usize)
        },
{
    if changes.len() != facts.len() {
        return Err(DiffError::FactsMismatch);
    }
    let n = changes.len();
    let mut total: usize = 0;
    let mut i: usize = 0;
    proof {
        assert(changes@.take(0) =~= Seq::<AccountChange>::empty());
    }
    while i < n
        invariant
            n == changes@.len(),
            n == facts@.len(),
            i <= n,
            accounts_wf(changes@),
            total == total_size(changes@.take(i as int), facts@.take(i as int)),
        decreases n - i,
    {
        proof {
            let c = changes@.take(i as int + 1);
            let f = facts@.take(i as int + 1);
            assert(c.drop_last() =~= changes@.take(i as int));
            assert(f.drop_last() =~= facts@.take(i as int));
            assert(c.last() == changes@[i as int]);
            assert(f.last() == facts@[i as int]);
            lemma_total_grows(changes@, facts@, i as int + 1);
        }
        let size = match account_diff_size(&changes[i], &facts[i]) {
            Some(size) => size,
            None => {
                return Err(DiffError::Overflow);
            },
        };
        if total > usize::MAX - size {
            return Err(DiffError::Overflow);
        }
        total = total + size;
        i += 1;
    }
    proof {
        assert(changes@.take(n as int) =~= changes@);
        assert(facts@.take(n as int) =~= facts@);
    }
    Ok(total)
}

} // verus!
