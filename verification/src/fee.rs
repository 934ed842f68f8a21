//! The fee for data availability: what a transaction pays for the bytes
//! of state that it changed.

use vstd::prelude::*;
use vstd::arithmetic::div_mod::lemma_small_mod;
use revm::primitives::U256;

verus! {

/// An unsigned 256-bit number, as four 64-bit limbs, the least significant
/// first.
#[derive(Clone, Copy, Debug, PartialEq, Eq, Structural, Hash)]
pub struct Word {
    pub l0: u64,
    pub l1: u64,
    pub l2: u64,
    pub l3: u64,
}

/// Two to the power of 64.
pub open spec fn limb_base() -> int {
    0x1_0000_0000_0000_0000
}

/// Two to the power of 256.
pub open spec fn word_modulus() -> int {
    limb_base() * limb_base() * limb_base() * limb_base()
}

impl Word {
    /// The number that the limbs stand for.
    pub open spec fn value(self) -> int {
        self.l0 + limb_base() * (self.l1 + limb_base() * (self.l2 + limb_base() * self.l3))
    }

    /// The word with the value `v`.
    pub fn from_u64(v: u64) -> (w: Word)
        ensures
            w == (Word { l0: v, l1: 0, l2: 0, l3: 0 }),
            w.value() == v,
    {
        Word { l0: v, l1: 0, l2: 0, l3: 0 }
    }
}

/// The product of two 256-bit numbers by `revm`'s `U256`, whose `*` wraps
/// around at two to the power of 256.
#[verifier::external_body]
fn u256_mul(a: Word, b: Word) -> (w: Word)
    ensures
        w.value() == (a.value() * b.value()) % word_modulus(),
{
    let x = U256::from_limbs([a.l0, a.l1, a.l2, a.l3]);
    let y = U256::from_limbs([b.l0, b.l1, b.l2, b.l3]);
    let p = (x * y).into_limbs();
    Word { l0: p[0], l1: p[1], l2: p[2], l3: p[3] }
}

/// The difference of two 256-bit numbers by `checked_sub` of `revm`'s
/// `U256`, which gives nothing where the second is the greater.
#[verifier::external_body]
fn u256_checked_sub(a: Word, b: Word) -> (r: Option<Word>)
    ensures
        match r {
            Some(w) => a.value() >= b.value() && w.value() == a.value() - b.value(),
            None => a.value() < b.value(),
        },
{
    let x = U256::from_limbs([a.l0, a.l1, a.l2, a.l3]);
    let y = U256::from_limbs([b.l0, b.l1, b.l2, b.l3]);
    match x.checked_sub(y) {
        Some(d) => {
            let p = d.into_limbs();
            Some(Word { l0: p[0], l1: p[1], l2: p[2], l3: p[3] })
        },
        None => None,
    }
}

/// What the fee computation needs to know from outside the execution.
pub trait CitreaExternal {
    /// The fee rate as a mathematical value.
    spec fn fee_rate(&self) -> u64;

    /// The fee per byte of changed state.
    fn l1_fee_rate(&self) -> (rate: u64)
        ensures
            rate == self.fee_rate(),
    ;
}

/// An execution context that carries the fee rate.
pub struct CitreaExternalContext {
    l1_fee_rate: u64,
}

impl CitreaExternalContext {
    /// A context with the fee rate `l1_fee_rate`.
    pub fn new(l1_fee_rate: u64) -> (context: Self)
        ensures
            context.fee_rate() == l1_fee_rate,
    {
        Self { l1_fee_rate }
    }
}

impl CitreaExternal for CitreaExternalContext {
    closed spec fn fee_rate(&self) -> u64 {
        self.l1_fee_rate
    }

    fn l1_fee_rate(&self) -> (rate: u64) {
        self.l1_fee_rate
    }
}

/// Why a balance could not be decreased.
#[derive(Clone, Copy, Debug, PartialEq, Eq, Structural)]
pub enum ChargeError {
    /// The balance is smaller than the amount.
    OutOfFunds,
}

/// The caller cannot pay the fee `fee`.
#[derive(Clone, Copy, Debug, PartialEq, Eq, Structural)]
pub struct NotEnoughFunds {
    pub fee: Word,
}

/// The fee for `diff_size` bytes of changed state at the rate `rate`:
/// their product.
pub fn l1_fee(diff_size: usize, rate: u64) -> (fee: Word)
    ensures
        fee.value() == diff_size * rate,
{
    let size = Word::from_u64(diff_size as u64);
    let per_byte = Word::from_u64(rate);
    let fee = u256_mul(size, per_byte);
    proof {
        let d = diff_size as int;
        let r = rate as int;
        let b = limb_base();
        assert(0 <= d * r < b * b) by (nonlinear_arith)
            requires
                0 <= d < b,
                0 <= r < b,
        ;
        assert(b * b <= b * b * b * b) by (nonlinear_arith)
            requires
                b >= 1,
        ;
        lemma_small_mod((d * r) as nat, word_modulus() as nat);
    }
    fee
}

/// Takes `amount` from `balance`. A balance that is too small stays as it
/// is, and the answer says so.
pub fn decrease_caller_balance(balance: &mut Word, amount: Word) -> (r: Option<ChargeError>)
    ensures
        r == if old(balance).value() >= amount.value() {
            None::<ChargeError>
        } else {
            Some(ChargeError::OutOfFunds)
        },
        r is None ==> final(balance).value() == old(balance).value() - amount.value(),
        r is Some ==> *final(balance) == *old(balance),
{
    match u256_checked_sub(*balance, amount) {
        Some(rest) => {
            *balance = rest;
            None
        },
        None => Some(ChargeError::OutOfFunds),
    }
}

/// Settles the fee after a transaction has run.
///
/// A transaction that `failed` pays nothing. One that succeeded pays the
/// fee for `diff_size` bytes at the rate of `external`, out of `balance`,
/// the balance of its caller; where the balance does not cover the fee,
/// nothing is taken and the fee is reported.
pub fn post_execution_output<EXT: CitreaExternal>(
    external: &EXT,
    failed: bool,
    diff_size: usize,
    balance: &mut Word,
) -> (r: Result<(), NotEnoughFunds>)
    ensures
        r is Ok <==> failed || old(balance).value() >= diff_size * external.fee_rate(),
        r is Err ==> r->Err_0.fee.value() == diff_size * external.fee_rate() && *final(balance)
            == *old(balance),
        failed ==> *final(balance) == *old(balance),
        !failed && r is Ok ==> final(balance).value() == old(balance).value() - diff_size
            * external.fee_rate(),
{
    if failed {
        return Ok(());
    }
    let fee = l1_fee(diff_size, external.l1_fee_rate());
    match decrease_caller_balance(balance, fee) {
        Some(_) => Err(NotEnoughFunds { fee }),
        None => Ok(()),
    }
}

} // verus!
