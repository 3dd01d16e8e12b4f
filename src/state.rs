//! The share ledger: identities, accounts, the market and its invariant.
use vstd::prelude::*;

use crate::utils::{sum_squares, CURVE_FACTOR, UNIT_SCALE};

verus! {

/// An opaque principal, compared by its 32 key bytes.
#[derive(Clone, Copy, Debug, PartialEq, Eq, Hash)]
pub struct Identity {
    pub key: [u8; 32],
}

impl Identity {
    /// Whether two identities are the same principal.
    pub fn same(&self, other: &Identity) -> (r: bool)
        ensures
            r == (*self == *other),
    {
        let mut i: usize = 0;
        while i < 32
            invariant
                0 <= i <= 32,
                self.key@.len() == 32,
                other.key@.len() == 32,
                forall|k: int| 0 <= k < i ==> self.key@[k] == other.key@[k],
            decreases 32 - i,
        {
            if self.key[i] != other.key[i] {
                return false;
            }
            i += 1;
        }
        proof {
            assert(self.key@ =~= other.key@);
            vstd::array::axiom_array_ext_equal(self.key, other.key);
        }
        true
    }
}

/// The pot: proceeds of buys, pending payout to sellers.
#[derive(Clone, Copy, Debug, PartialEq, Eq)]
pub struct PotAccount {
    pub lamports: u64,
}

/// The protocol accumulator: protocol fee income.
#[derive(Clone, Copy, Debug, PartialEq, Eq)]
pub struct ProtocolAccount {
    pub lamports: u64,
}

/// A subject's mint: its share supply and its fee income.
#[derive(Clone, Copy, Debug, PartialEq, Eq)]
pub struct MintAccount {
    pub subject: Identity,
    /// The share supply, counting the genesis unit that no holder owns.
    pub amount: u64,
    /// The subject fees collected and not yet withdrawn.
    pub lamports: u64,
}

/// The shares of one subject that one holder owns.
#[derive(Clone, Copy, Debug, PartialEq, Eq)]
pub struct TokenAccount {
    pub owner: Identity,
    pub subject: Identity,
    pub amount: u64,
}

/// The authenticated caller of an operation, with its spendable balance.
#[derive(Clone, Copy, Debug, PartialEq, Eq)]
pub struct Authority {
    pub key: Identity,
    pub lamports: u64,
}

/// The whole market: the two accumulators, one mint per subject and one
/// holding per (holder, subject) pair.
#[derive(Debug)]
pub struct Market {
    /// The identity allowed to withdraw protocol fees.
    pub owner: Identity,
    pub pot: PotAccount,
    pub protocol: ProtocolAccount,
    pub mints: Vec<MintAccount>,
    pub tokens: Vec<TokenAccount>,
}

/// The market as plain values.
pub struct MarketView {
    pub owner: Identity,
    pub pot: u64,
    pub protocol: u64,
    pub mints: Seq<MintAccount>,
    pub tokens: Seq<TokenAccount>,
}

impl View for Market {
    type V = MarketView;

    open spec fn view(&self) -> MarketView {
        MarketView {
            owner: self.owner,
            pot: self.pot.lamports,
            protocol: self.protocol.lamports,
            mints: self.mints@,
            tokens: self.tokens@,
        }
    }
}

/// The shares of `subject` that all holdings together own.
pub open spec fn held(tokens: Seq<TokenAccount>, subject: Identity) -> nat
    decreases tokens.len(),
{
    if tokens.len() == 0 {
        0
    } else {
        held(tokens.drop_last(), subject) + if tokens.last().subject == subject {
            tokens.last().amount as nat
        } else {
            0
        }
    }
}

/// Appending a holding adds its amount to its own subject's total.
pub proof fn lemma_held_push(tokens: Seq<TokenAccount>, t: TokenAccount, subject: Identity)
    ensures
        held(tokens.push(t), subject) == held(tokens, subject) + if t.subject == subject {
            t.amount as nat
        } else {
            0
        },
{
    assert(tokens.push(t).drop_last() =~= tokens);
}

/// Replacing a holding by one of the same subject moves that subject's total
/// by the difference of the amounts.
pub proof fn lemma_held_update(
    tokens: Seq<TokenAccount>,
    j: int,
    t: TokenAccount,
    subject: Identity,
)
    requires
        0 <= j < tokens.len(),
        t.subject == tokens[j].subject,
    ensures
        held(tokens.update(j, t), subject) + (if t.subject == subject {
            tokens[j].amount as int
        } else {
            0
        }) == held(tokens, subject) + (if t.subject == subject {
            t.amount as int
        } else {
            0
        }),
    decreases tokens.len(),
{
    let u = tokens.update(j, t);
    if j < tokens.len() - 1 {
        assert(u.drop_last() =~= tokens.drop_last().update(j, t));
        lemma_held_update(tokens.drop_last(), j, t, subject);
    } else {
        assert(u.drop_last() =~= tokens.drop_last());
    }
}

/// No holding of `subject`: its total is zero.
pub proof fn lemma_held_absent(tokens: Seq<TokenAccount>, subject: Identity)
    requires
        forall|j: int| 0 <= j < tokens.len() ==> (#[trigger] tokens[j]).subject != subject,
    ensures
        held(tokens, subject) == 0,
    decreases tokens.len(),
{
    if tokens.len() > 0 {
        lemma_held_absent(tokens.drop_last(), subject);
    }
}

/// What selling every share above the genesis unit back to the pot would pay
/// when the supply is `supply`: the curve's price from a supply of one.
pub open spec fn reserve_of(supply: u64) -> int {
    if supply == 0 {
        0
    } else {
        sum_squares((supply - 1) as nat) * (UNIT_SCALE / CURVE_FACTOR) as int
    }
}

/// What the pot owes, over all mints.
pub open spec fn reserve(mints: Seq<MintAccount>) -> int
    decreases mints.len(),
{
    if mints.len() == 0 {
        0
    } else {
        reserve(mints.drop_last()) + reserve_of(mints.last().amount)
    }
}

/// Appending a mint adds what it owes.
pub proof fn lemma_reserve_push(mints: Seq<MintAccount>, x: MintAccount)
    ensures
        reserve(mints.push(x)) == reserve(mints) + reserve_of(x.amount),
{
    assert(mints.push(x).drop_last() =~= mints);
}

/// Replacing a mint moves the total by the difference of what they owe.
pub proof fn lemma_reserve_update(mints: Seq<MintAccount>, i: int, x: MintAccount)
    requires
        0 <= i < mints.len(),
    ensures
        reserve(mints.update(i, x)) + reserve_of(mints[i].amount) == reserve(mints) + reserve_of(
            x.amount,
        ),
    decreases mints.len(),
{
    let u = mints.update(i, x);
    if i < mints.len() - 1 {
        assert(u.drop_last() =~= mints.drop_last().update(i, x));
        lemma_reserve_update(mints.drop_last(), i, x);
    } else {
        assert(u.drop_last() =~= mints.drop_last());
    }
}

/// What one mint owes is part of the total.
pub proof fn lemma_reserve_bound(mints: Seq<MintAccount>, i: int)
    requires
        0 <= i < mints.len(),
    ensures
        0 <= reserve_of(mints[i].amount) <= reserve(mints),
    decreases mints.len(),
{
    lemma_reserve_nonnegative(mints.drop_last());
    if i < mints.len() - 1 {
        lemma_reserve_bound(mints.drop_last(), i);
    }
}

/// The total owed is never negative.
pub proof fn lemma_reserve_nonnegative(mints: Seq<MintAccount>)
    ensures
        0 <= reserve(mints),
    decreases mints.len(),
{
    if mints.len() > 0 {
        lemma_reserve_nonnegative(mints.drop_last());
    }
}

impl MarketView {
    /// `subject` has a mint.
    pub open spec fn has_mint(self, subject: Identity) -> bool {
        exists|i: int| 0 <= i < self.mints.len() && self.mints[i].subject == subject
    }

    /// The position of `subject`'s mint.
    pub open spec fn mint_index(self, subject: Identity) -> int {
        choose|i: int| 0 <= i < self.mints.len() && self.mints[i].subject == subject
    }

    /// `owner` has a holding of `subject`'s shares.
    pub open spec fn has_token(self, owner: Identity, subject: Identity) -> bool {
        exists|j: int|
            0 <= j < self.tokens.len() && self.tokens[j].owner == owner && self.tokens[j].subject
                == subject
    }

    /// The position of `owner`'s holding of `subject`'s shares.
    pub open spec fn token_index(self, owner: Identity, subject: Identity) -> int {
        choose|j: int|
            0 <= j < self.tokens.len() && self.tokens[j].owner == owner && self.tokens[j].subject
                == subject
    }

    /// The shares of `subject` that `owner` holds; zero without a holding.
    pub open spec fn holding(self, owner: Identity, subject: Identity) -> int {
        if self.has_token(owner, subject) {
            self.tokens[self.token_index(owner, subject)].amount as int
        } else {
            0
        }
    }

    /// One mint per subject, one holding per pair, holdings only of minted
    /// subjects, each supply is one genesis unit plus what the holders own,
    /// and the pot covers selling every share back.
    pub open spec fn wf(self) -> bool {
        &&& self.pot >= reserve(self.mints)
        &&& forall|i: int, k: int|
            0 <= i < k < self.mints.len() ==> #[trigger] self.mints[i].subject
                != #[trigger] self.mints[k].subject
        &&& forall|j: int, k: int|
            0 <= j < k < self.tokens.len() ==> !(#[trigger] self.tokens[j].owner
                == #[trigger] self.tokens[k].owner && self.tokens[j].subject
                == self.tokens[k].subject)
        &&& forall|j: int|
            0 <= j < self.tokens.len() ==> self.has_mint(#[trigger] self.tokens[j].subject)
        &&& forall|i: int|
            0 <= i < self.mints.len() ==> #[trigger] self.mints[i].amount >= 1 && held(
                self.tokens,
                self.mints[i].subject,
            ) + 1 == self.mints[i].amount
    }
}

impl Market {
    /// The position of `subject`'s mint, if it has one.
    pub fn find_mint(&self, subject: &Identity) -> (r: Option<usize>)
        requires
            self@.wf(),
        ensures
            r is Some <==> self@.has_mint(*subject),
            r is Some ==> r->0 == self@.mint_index(*subject),
    {
        let mut i: usize = 0;
        while i < self.mints.len()
            invariant
                0 <= i <= self.mints@.len(),
                self@.wf(),
                forall|k: int| 0 <= k < i ==> self.mints@[k].subject != *subject,
            decreases self.mints@.len() - i,
        {
            if self.mints[i].subject.same(subject) {
                proof {
                    let c = self@.mint_index(*subject);
                    assert(self@.mints[c].subject == *subject);
                    if c != i {
                        assert(c > i);
                        assert(self@.mints[i as int].subject != self@.mints[c].subject);
                    }
                }
                return Some(i);
            }
            i += 1;
        }
        None
    }

    /// The position of `owner`'s holding of `subject`'s shares, if it has one.
    pub fn find_token(&self, owner: &Identity, subject: &Identity) -> (r: Option<usize>)
        requires
            self@.wf(),
        ensures
            r is Some <==> self@.has_token(*owner, *subject),
            r is Some ==> r->0 == self@.token_index(*owner, *subject),
    {
        let mut j: usize = 0;
        while j < self.tokens.len()
            invariant
                0 <= j <= self.tokens@.len(),
                self@.wf(),
                forall|k: int|
                    0 <= k < j ==> !(self.tokens@[k].owner == *owner && self.tokens@[k].subject
                        == *subject),
            decreases self.tokens@.len() - j,
        {
            let t = self.tokens[j];
            if t.owner.same(owner) && t.subject.same(subject) {
                proof {
                    let c = self@.token_index(*owner, *subject);
                    assert(self@.tokens[c].owner == *owner && self@.tokens[c].subject == *subject);
                    if c != j {
                        assert(c > j);
                        assert(self@.tokens[j as int].owner == self@.tokens[c].owner);
                    }
                }
                return Some(j);
            }
            j += 1;
        }
        None
    }
}

} // verus!
