//! The market operations: mint, buy, sell and the two withdrawals, each an
//! exact state transition, and the laws of the ledger they keep.
use vstd::prelude::*;

use crate::error::GGError;
use crate::state::{
    held, lemma_held_absent, lemma_held_push, lemma_held_update, lemma_reserve_bound,
    lemma_reserve_nonnegative, lemma_reserve_push, lemma_reserve_update, reserve, reserve_of,
    Authority, Identity, Market, MarketView, MintAccount, PotAccount, ProtocolAccount,
    TokenAccount,
};
use crate::utils::{
    fee_of, get_buy_price, get_sell_price, lemma_curve_price_value, lemma_fees_within_price,
    price_result, sell_price_result, split_fees, sum_squares, MINT_FEE, PROTOCOL_FEE_PERCENT,
    SUBJECT_FEE_PERCENT,
};

verus! {

/// The outcome of an operation: its result, the market after it, and the
/// caller after it.
pub type Outcome = (Result<(), GGError>, MarketView, Authority);

/// An operation that fails leaves the market and the caller as they were.
pub open spec fn rejected(m: MarketView, authority: Authority, e: GGError) -> Outcome {
    (Err(e), m, authority)
}

/// An empty market whose protocol fees `owner` may withdraw.
pub open spec fn empty_market(owner: Identity) -> MarketView {
    MarketView { owner, pot: 0, protocol: 0, mints: Seq::empty(), tokens: Seq::empty() }
}

/// Minting: the caller's own subject gets a mint of supply one, and the
/// caller pays the minting fee to the protocol.
pub open spec fn mint_step(m: MarketView, authority: Authority) -> Outcome {
    if m.has_mint(authority.key) {
        rejected(m, authority, GGError::AlreadyExists)
    } else if authority.lamports < MINT_FEE {
        rejected(m, authority, GGError::InsufficientFunds)
    } else if m.protocol + MINT_FEE > u64::MAX {
        rejected(m, authority, GGError::MathOverflow)
    } else {
        (
            Ok(()),
            MarketView {
                protocol: (m.protocol + MINT_FEE) as u64,
                mints: m.mints.push(MintAccount { subject: authority.key, amount: 1, lamports: 0 }),
                ..m
            },
            Authority { lamports: (authority.lamports - MINT_FEE) as u64, ..authority },
        )
    }
}

/// The holdings after `owner` gains `amount` shares of `subject`: its
/// holding grows, or a new one is appended.
pub open spec fn credit_holding(
    m: MarketView,
    owner: Identity,
    subject: Identity,
    amount: u64,
) -> Seq<TokenAccount> {
    if m.has_token(owner, subject) {
        let j = m.token_index(owner, subject);
        m.tokens.update(j, TokenAccount { amount: (m.tokens[j].amount + amount) as u64, ..m.tokens[j] })
    } else {
        m.tokens.push(TokenAccount { owner, subject, amount })
    }
}

/// The holdings after `owner` gives up `amount` shares of `subject`.
pub open spec fn debit_holding(
    m: MarketView,
    owner: Identity,
    subject: Identity,
    amount: u64,
) -> Seq<TokenAccount> {
    if m.has_token(owner, subject) {
        let j = m.token_index(owner, subject);
        m.tokens.update(j, TokenAccount { amount: (m.tokens[j].amount - amount) as u64, ..m.tokens[j] })
    } else {
        m.tokens
    }
}

/// Buying: the caller pays the curve's price into the pot and both fees on
/// top, and its holding and the supply grow by `amount`.
pub open spec fn buy_step(m: MarketView, authority: Authority, subject: Identity, amount: u64) -> Outcome {
    if !m.has_mint(subject) {
        rejected(m, authority, GGError::InvalidSupply)
    } else {
        let i = m.mint_index(subject);
        let mint = m.mints[i];
        if mint.amount == 0 || amount == 0 {
            rejected(m, authority, GGError::InvalidSupply)
        } else {
            match price_result(mint.amount as int, amount as int) {
                Err(e) => rejected(m, authority, e),
                Ok(price) => {
                    let protocol_fee = fee_of(price as int, PROTOCOL_FEE_PERCENT as int);
                    let subject_fee = fee_of(price as int, SUBJECT_FEE_PERCENT as int);
                    let cost = price + protocol_fee + subject_fee;
                    if cost > u64::MAX {
                        rejected(m, authority, GGError::MathOverflow)
                    } else if authority.lamports < cost {
                        rejected(m, authority, GGError::InsufficientFunds)
                    } else if m.protocol + protocol_fee > u64::MAX || mint.lamports + subject_fee
                        > u64::MAX || m.pot + price > u64::MAX || mint.amount + amount > u64::MAX
                        || m.holding(authority.key, subject) + amount > u64::MAX {
                        rejected(m, authority, GGError::MathOverflow)
                    } else {
                        (
                            Ok(()),
                            MarketView {
                                pot: (m.pot + price) as u64,
                                protocol: (m.protocol + protocol_fee) as u64,
                                mints: m.mints.update(
                                    i,
                                    MintAccount {
                                        amount: (mint.amount + amount) as u64,
                                        lamports: (mint.lamports + subject_fee) as u64,
                                        ..mint
                                    },
                                ),
                                tokens: credit_holding(m, authority.key, subject, amount),
                                ..m
                            },
                            Authority { lamports: (authority.lamports - cost) as u64, ..authority },
                        )
                    }
                },
            }
        }
    }
}

/// Selling: the pot pays the curve's price, both fees are taken from it,
/// the rest goes to the caller, and its holding and the supply shrink by
/// `amount`.
pub open spec fn sell_step(m: MarketView, authority: Authority, subject: Identity, amount: u64) -> Outcome {
    if !m.has_mint(subject) {
        rejected(m, authority, GGError::InvalidSupply)
    } else if m.holding(authority.key, subject) < amount {
        rejected(m, authority, GGError::InsufficientShares)
    } else {
        let i = m.mint_index(subject);
        let mint = m.mints[i];
        if mint.amount <= amount {
            rejected(m, authority, GGError::InvalidSupply)
        } else {
            match sell_price_result(mint.amount as int, amount as int) {
                Err(e) => rejected(m, authority, e),
                Ok(price) => {
                    let protocol_fee = fee_of(price as int, PROTOCOL_FEE_PERCENT as int);
                    let subject_fee = fee_of(price as int, SUBJECT_FEE_PERCENT as int);
                    let payout = price - protocol_fee - subject_fee;
                    if m.pot < price {
                        rejected(m, authority, GGError::InsufficientFunds)
                    } else if m.protocol + protocol_fee > u64::MAX || mint.lamports + subject_fee
                        > u64::MAX || authority.lamports + payout > u64::MAX {
                        rejected(m, authority, GGError::MathOverflow)
                    } else {
                        (
                            Ok(()),
                            MarketView {
                                pot: (m.pot - price) as u64,
                                protocol: (m.protocol + protocol_fee) as u64,
                                mints: m.mints.update(
                                    i,
                                    MintAccount {
                                        amount: (mint.amount - amount) as u64,
                                        lamports: (mint.lamports + subject_fee) as u64,
                                        ..mint
                                    },
                                ),
                                tokens: debit_holding(m, authority.key, subject, amount),
                                ..m
                            },
                            Authority {
                                lamports: (authority.lamports + payout) as u64,
                                ..authority
                            },
                        )
                    }
                },
            }
        }
    }
}

/// Withdrawing protocol fees: the owner takes all but the reserved minimum.
pub open spec fn withdraw_protocol_step(
    m: MarketView,
    authority: Authority,
    reserved_minimum: u64,
) -> Outcome {
    if authority.key != m.owner {
        rejected(m, authority, GGError::Unauthorized)
    } else if m.protocol <= reserved_minimum {
        rejected(m, authority, GGError::InsufficientFunds)
    } else if authority.lamports + (m.protocol - reserved_minimum) > u64::MAX {
        rejected(m, authority, GGError::MathOverflow)
    } else {
        (
            Ok(()),
            MarketView { protocol: reserved_minimum, ..m },
            Authority {
                lamports: (authority.lamports + (m.protocol - reserved_minimum)) as u64,
                ..authority
            },
        )
    }
}

/// Withdrawing subject fees: the mint's subject takes all of the mint's fee
/// balance but the reserved minimum.
pub open spec fn withdraw_mint_step(
    m: MarketView,
    authority: Authority,
    subject: Identity,
    reserved_minimum: u64,
) -> Outcome {
    if !m.has_mint(subject) {
        rejected(m, authority, GGError::InvalidSupply)
    } else {
        let i = m.mint_index(subject);
        let mint = m.mints[i];
        if mint.subject != authority.key {
            rejected(m, authority, GGError::Unauthorized)
        } else if mint.lamports <= reserved_minimum {
            rejected(m, authority, GGError::InsufficientFunds)
        } else if authority.lamports + (mint.lamports - reserved_minimum) > u64::MAX {
            rejected(m, authority, GGError::MathOverflow)
        } else {
            (
                Ok(()),
                MarketView {
                    mints: m.mints.update(i, MintAccount { lamports: reserved_minimum, ..mint }),
                    ..m
                },
                Authority {
                    lamports: (authority.lamports + (mint.lamports - reserved_minimum)) as u64,
                    ..authority
                },
            )
        }
    }
}

/// A market with no mints and no holdings, and empty accumulators.
pub fn initialize(owner: Identity) -> (r: Market)
    ensures
        r@ == empty_market(owner),
        r@.wf(),
{
    let r = Market {
        owner,
        pot: PotAccount { lamports: 0 },
        protocol: ProtocolAccount { lamports: 0 },
        mints: Vec::new(),
        tokens: Vec::new(),
    };
    assert(r@.mints =~= Seq::empty());
    assert(r@.tokens =~= Seq::empty());
    r
}

/// Minting keeps the ledger well formed.
pub proof fn lemma_mint_preserves_wf(m: MarketView, authority: Authority)
    requires
        m.wf(),
    ensures
        mint_step(m, authority).1.wf(),
{
    let n = mint_step(m, authority).1;
    if mint_step(m, authority).0 is Ok {
        let key = authority.key;
        lemma_reserve_push(m.mints, MintAccount { subject: key, amount: 1, lamports: 0 });
        assert(sum_squares(0) == 0);
        assert forall|j: int| 0 <= j < n.tokens.len() implies n.has_mint(
            #[trigger] n.tokens[j].subject,
        ) by {
            assert(m.has_mint(m.tokens[j].subject));
            let i = m.mint_index(m.tokens[j].subject);
            assert(n.mints[i] == m.mints[i]);
        }
        assert forall|j: int| 0 <= j < m.tokens.len() implies (#[trigger] m.tokens[j]).subject
            != key by {
            assert(m.has_mint(m.tokens[j].subject));
        }
        lemma_held_absent(m.tokens, key);
        assert forall|i: int| 0 <= i < n.mints.len() implies #[trigger] n.mints[i].amount >= 1
            && held(n.tokens, n.mints[i].subject) + 1 == n.mints[i].amount by {
            if i < m.mints.len() {
                assert(n.mints[i] == m.mints[i]);
            }
        }
        assert forall|i: int, k: int| 0 <= i < k < n.mints.len() implies #[trigger] n.mints[i].subject
            != #[trigger] n.mints[k].subject by {
            if k == m.mints.len() {
                assert(n.mints[i] == m.mints[i]);
            } else {
                assert(n.mints[i] == m.mints[i]);
                assert(n.mints[k] == m.mints[k]);
            }
        }
    }
}

/// Mints a subject for the caller: a supply of one genesis unit, paid for
/// with the minting fee, which goes to the protocol.
pub fn mint(market: &mut Market, authority: &mut Authority) -> (r: Result<(), GGError>)
    requires
        old(market)@.wf(),
    ensures
        (r, final(market)@, *final(authority)) == mint_step(old(market)@, *old(authority)),
        final(market)@.wf(),
{
    proof {
        lemma_mint_preserves_wf(market@, *authority);
    }
    if market.find_mint(&authority.key).is_some() {
        return Err(GGError::AlreadyExists);
    }
    if authority.lamports < MINT_FEE {
        return Err(GGError::InsufficientFunds);
    }
    let protocol = match market.protocol.lamports.checked_add(MINT_FEE) {
        Some(v) => v,
        None => return Err(GGError::MathOverflow),
    };
    market.protocol.lamports = protocol;
    authority.lamports = authority.lamports - MINT_FEE;
    market.mints.push(MintAccount { subject: authority.key, amount: 1, lamports: 0 });
    Ok(())
}

/// Rewriting mints in place, subjects kept, keeps which subjects have a mint,
/// where, and that each has one.
proof fn lemma_subjects_kept(m: MarketView, n: MarketView)
    requires
        m.wf(),
        n.mints.len() == m.mints.len(),
        forall|k: int| 0 <= k < n.mints.len() ==> #[trigger] n.mints[k].subject == m.mints[k].subject,
    ensures
        forall|s: Identity| #[trigger] n.has_mint(s) == m.has_mint(s),
        forall|s: Identity| m.has_mint(s) ==> #[trigger] n.mint_index(s) == m.mint_index(s),
        forall|i: int, k: int|
            0 <= i < k < n.mints.len() ==> #[trigger] n.mints[i].subject
                != #[trigger] n.mints[k].subject,
{
    assert forall|s: Identity| #[trigger] n.has_mint(s) == m.has_mint(s) by {
        if n.has_mint(s) {
            let i = n.mint_index(s);
            assert(m.mints[i].subject == s);
        }
        if m.has_mint(s) {
            let i = m.mint_index(s);
            assert(n.mints[i].subject == s);
        }
    }
    assert forall|s: Identity| m.has_mint(s) implies #[trigger] n.mint_index(s) == m.mint_index(s) by {
        assert(n.has_mint(s));
        let a = n.mint_index(s);
        let b = m.mint_index(s);
        assert(n.mints[a].subject == s);
        assert(m.mints[a].subject == s);
        if a < b {
            assert(m.mints[a].subject != m.mints[b].subject);
        } else if b < a {
            assert(m.mints[b].subject != m.mints[a].subject);
        }
    }
    assert forall|i: int, k: int| 0 <= i < k < n.mints.len() implies #[trigger] n.mints[i].subject
        != #[trigger] n.mints[k].subject by {
        assert(m.mints[i].subject != m.mints[k].subject);
    }
}

/// Changing the amount of one holding, or appending a holding for a pair
/// that had none, keeps holdings unique and of minted subjects, and moves
/// only the total of `subject`, by `delta`.
proof fn lemma_holding_changed(
    m: MarketView,
    n: MarketView,
    owner: Identity,
    subject: Identity,
    delta: int,
)
    requires
        m.wf(),
        m.has_mint(subject),
        forall|s: Identity| #[trigger] n.has_mint(s) == m.has_mint(s),
        m.has_token(owner, subject) ==> ({
            let j = m.token_index(owner, subject);
            &&& n.tokens == m.tokens.update(
                j,
                TokenAccount { amount: n.tokens[j].amount, ..m.tokens[j] },
            )
            &&& n.tokens[j].amount == m.tokens[j].amount + delta
        }),
        !m.has_token(owner, subject) ==> (delta == 0 && n.tokens == m.tokens) || (n.tokens
            == m.tokens.push(TokenAccount { owner, subject, amount: delta as u64 }) && delta
            >= 0 && delta <= u64::MAX),
    ensures
        forall|s: Identity| #[trigger]
            held(n.tokens, s) == held(m.tokens, s) + if s == subject {
                delta
            } else {
                0
            },
        forall|j: int, k: int|
            0 <= j < k < n.tokens.len() ==> !(#[trigger] n.tokens[j].owner
                == #[trigger] n.tokens[k].owner && n.tokens[j].subject == n.tokens[k].subject),
        forall|j: int| 0 <= j < n.tokens.len() ==> n.has_mint(#[trigger] n.tokens[j].subject),
{
    if m.has_token(owner, subject) {
        let j = m.token_index(owner, subject);
        let t = n.tokens[j];
        assert forall|s: Identity| #[trigger]
            held(n.tokens, s) == held(m.tokens, s) + if s == subject {
                delta
            } else {
                0
            } by {
            lemma_held_update(m.tokens, j, t, s);
        }
        assert forall|k: int| 0 <= k < n.tokens.len() implies #[trigger] n.tokens[k].owner
            == m.tokens[k].owner && n.tokens[k].subject == m.tokens[k].subject by {}
        assert forall|k: int| 0 <= k < n.tokens.len() implies n.has_mint(
            #[trigger] n.tokens[k].subject,
        ) by {
            assert(m.has_mint(m.tokens[k].subject));
        }
        assert forall|a: int, b: int| 0 <= a < b < n.tokens.len() implies !(
        #[trigger] n.tokens[a].owner == #[trigger] n.tokens[b].owner && n.tokens[a].subject
            == n.tokens[b].subject) by {
            assert(!(m.tokens[a].owner == m.tokens[b].owner && m.tokens[a].subject
                == m.tokens[b].subject));
        }
    } else if n.tokens == m.tokens {
    } else {
        let t = TokenAccount { owner, subject, amount: delta as u64 };
        assert forall|s: Identity| #[trigger]
            held(n.tokens, s) == held(m.tokens, s) + if s == subject {
                delta
            } else {
                0
            } by {
            lemma_held_push(m.tokens, t, s);
        }
        assert forall|k: int| 0 <= k < n.tokens.len() implies n.has_mint(
            #[trigger] n.tokens[k].subject,
        ) by {
            if k < m.tokens.len() {
                assert(n.tokens[k] == m.tokens[k]);
                assert(m.has_mint(m.tokens[k].subject));
            }
        }
        assert forall|a: int, b: int| 0 <= a < b < n.tokens.len() implies !(
        #[trigger] n.tokens[a].owner == #[trigger] n.tokens[b].owner && n.tokens[a].subject
            == n.tokens[b].subject) by {
            assert(n.tokens[a] == m.tokens[a]);
            if b < m.tokens.len() {
                assert(n.tokens[b] == m.tokens[b]);
                assert(!(m.tokens[a].owner == m.tokens[b].owner && m.tokens[a].subject
                    == m.tokens[b].subject));
            } else {
                assert(!(m.tokens[a].owner == owner && m.tokens[a].subject == subject));
            }
        }
    }
}

/// Moving the supply of one subject's mint and its holders' total by the
/// same amount, with the rest of the ledger kept, keeps it well formed.
proof fn lemma_trade_preserves_wf(m: MarketView, n: MarketView, subject: Identity, delta: int)
    requires
        m.wf(),
        m.has_mint(subject),
        n.mints.len() == m.mints.len(),
        forall|k: int| 0 <= k < n.mints.len() ==> #[trigger] n.mints[k].subject == m.mints[k].subject,
        forall|k: int|
            0 <= k < n.mints.len() && k != m.mint_index(subject) ==> #[trigger] n.mints[k].amount
                == m.mints[k].amount,
        n.mints[m.mint_index(subject)].amount == m.mints[m.mint_index(subject)].amount + delta,
        n.mints[m.mint_index(subject)].amount >= 1,
        n.pot >= reserve(n.mints),
        forall|s: Identity| #[trigger]
            held(n.tokens, s) == held(m.tokens, s) + if s == subject {
                delta
            } else {
                0
            },
        forall|j: int, k: int|
            0 <= j < k < n.tokens.len() ==> !(#[trigger] n.tokens[j].owner
                == #[trigger] n.tokens[k].owner && n.tokens[j].subject == n.tokens[k].subject),
        forall|j: int| 0 <= j < n.tokens.len() ==> n.has_mint(#[trigger] n.tokens[j].subject),
    ensures
        n.wf(),
{
    lemma_subjects_kept(m, n);
    let i = m.mint_index(subject);
    assert forall|k: int| 0 <= k < n.mints.len() implies #[trigger] n.mints[k].amount >= 1 && held(
        n.tokens,
        n.mints[k].subject,
    ) + 1 == n.mints[k].amount by {
        assert(held(n.tokens, n.mints[k].subject) == held(m.tokens, m.mints[k].subject) + if m.mints[k].subject
            == subject {
            delta
        } else {
            0
        });
        if k != i {
            if k < i {
                assert(m.mints[k].subject != m.mints[i].subject);
            } else {
                assert(m.mints[i].subject != m.mints[k].subject);
            }
        }
    }
}

/// Buying keeps the ledger well formed.
pub proof fn lemma_buy_preserves_wf(m: MarketView, authority: Authority, subject: Identity, amount: u64)
    requires
        m.wf(),
    ensures
        buy_step(m, authority, subject, amount).1.wf(),
{
    let out = buy_step(m, authority, subject, amount);
    if out.0 is Ok {
        let n = out.1;
        lemma_subjects_kept(m, n);
        lemma_holding_changed(m, n, authority.key, subject, amount as int);
        let i = m.mint_index(subject);
        let supply = m.mints[i].amount;
        lemma_reserve_update(m.mints, i, n.mints[i]);
        lemma_curve_price_value(supply as int, amount as int);
        assert(reserve_of(n.mints[i].amount) == reserve_of(supply) + (n.pot - m.pot));
        lemma_trade_preserves_wf(m, n, subject, amount as int);
    }
}

/// Buys `amount` shares of `subject` for the caller at the curve's price:
/// the price goes to the pot, the protocol fee to the protocol, the subject
/// fee to the subject's mint, and the supply and the caller's holding grow by
/// `amount`, the holding being created on first purchase.
pub fn buy_shares(
    market: &mut Market,
    authority: &mut Authority,
    subject: Identity,
    amount: u64,
) -> (r: Result<(), GGError>)
    requires
        old(market)@.wf(),
    ensures
        (r, final(market)@, *final(authority)) == buy_step(
            old(market)@,
            *old(authority),
            subject,
            amount,
        ),
        final(market)@.wf(),
{
    proof {
        lemma_buy_preserves_wf(market@, *authority, subject, amount);
    }
    let i = match market.find_mint(&subject) {
        Some(i) => i,
        None => return Err(GGError::InvalidSupply),
    };
    let mint = market.mints[i];
    let supply = mint.amount;
    if supply == 0 || amount == 0 {
        return Err(GGError::InvalidSupply);
    }
    let price = match get_buy_price(supply, amount) {
        Ok(p) => p,
        Err(e) => return Err(e),
    };
    let (protocol_fee, subject_fee) = match split_fees(price) {
        Ok(f) => f,
        Err(e) => return Err(e),
    };
    proof {
        lemma_fees_within_price(price as int);
    }
    let cost = match price.checked_add(protocol_fee) {
        Some(v) => match v.checked_add(subject_fee) {
            Some(c) => c,
            None => return Err(GGError::MathOverflow),
        },
        None => return Err(GGError::MathOverflow),
    };
    if authority.lamports < cost {
        return Err(GGError::InsufficientFunds);
    }
    let token = market.find_token(&authority.key, &subject);
    let held_now: u64 = match token {
        Some(j) => market.tokens[j].amount,
        None => 0,
    };
    let protocol = market.protocol.lamports.checked_add(protocol_fee);
    let mint_lamports = mint.lamports.checked_add(subject_fee);
    let pot = market.pot.lamports.checked_add(price);
    let new_supply = supply.checked_add(amount);
    let new_held = held_now.checked_add(amount);
    if protocol.is_none() || mint_lamports.is_none() || pot.is_none() || new_supply.is_none()
        || new_held.is_none() {
        return Err(GGError::MathOverflow);
    }
    market.protocol.lamports = protocol.unwrap();
    market.pot.lamports = pot.unwrap();
    market.mints.set(
        i,
        MintAccount {
            subject: mint.subject,
            amount: new_supply.unwrap(),
            lamports: mint_lamports.unwrap(),
        },
    );
    match token {
        Some(j) => {
            let t = market.tokens[j];
            market.tokens.set(
                j,
                TokenAccount { owner: t.owner, subject: t.subject, amount: new_held.unwrap() },
            );
        },
        None => {
            market.tokens.push(TokenAccount { owner: authority.key, subject, amount });
        },
    }
    authority.lamports = authority.lamports - cost;
    Ok(())
}

/// Selling keeps the ledger well formed.
pub proof fn lemma_sell_preserves_wf(m: MarketView, authority: Authority, subject: Identity, amount: u64)
    requires
        m.wf(),
    ensures
        sell_step(m, authority, subject, amount).1.wf(),
{
    let out = sell_step(m, authority, subject, amount);
    if out.0 is Ok {
        let n = out.1;
        lemma_subjects_kept(m, n);
        lemma_holding_changed(m, n, authority.key, subject, -amount);
        let i = m.mint_index(subject);
        let supply = m.mints[i].amount;
        lemma_reserve_update(m.mints, i, n.mints[i]);
        lemma_curve_price_value(supply - amount, amount as int);
        assert(reserve_of(n.mints[i].amount) + (m.pot - n.pot) == reserve_of(supply));
        lemma_trade_preserves_wf(m, n, subject, -amount);
    }
}

/// Sells `amount` of the caller's shares of `subject` back to the pot at the
/// curve's price: the pot pays the price, of which the protocol fee goes to
/// the protocol, the subject fee to the subject's mint, and the rest to the
/// caller; the supply and the caller's holding shrink by `amount`.
pub fn sell_shares(
    market: &mut Market,
    authority: &mut Authority,
    subject: Identity,
    amount: u64,
) -> (r: Result<(), GGError>)
    requires
        old(market)@.wf(),
    ensures
        (r, final(market)@, *final(authority)) == sell_step(
            old(market)@,
            *old(authority),
            subject,
            amount,
        ),
        final(market)@.wf(),
{
    proof {
        lemma_sell_preserves_wf(market@, *authority, subject, amount);
    }
    let i = match market.find_mint(&subject) {
        Some(i) => i,
        None => return Err(GGError::InvalidSupply),
    };
    let token = market.find_token(&authority.key, &subject);
    let held_now: u64 = match token {
        Some(j) => market.tokens[j].amount,
        None => 0,
    };
    if held_now < amount {
        return Err(GGError::InsufficientShares);
    }
    let mint = market.mints[i];
    let supply = mint.amount;
    if supply <= amount {
        return Err(GGError::InvalidSupply);
    }
    let price = match get_sell_price(supply, amount) {
        Ok(p) => p,
        Err(e) => return Err(e),
    };
    let (protocol_fee, subject_fee) = match split_fees(price) {
        Ok(f) => f,
        Err(e) => return Err(e),
    };
    proof {
        lemma_fees_within_price(price as int);
    }
    if market.pot.lamports < price {
        return Err(GGError::InsufficientFunds);
    }
    let payout = price - protocol_fee - subject_fee;
    let protocol = market.protocol.lamports.checked_add(protocol_fee);
    let mint_lamports = mint.lamports.checked_add(subject_fee);
    let wallet = authority.lamports.checked_add(payout);
    if protocol.is_none() || mint_lamports.is_none() || wallet.is_none() {
        return Err(GGError::MathOverflow);
    }
    market.pot.lamports = market.pot.lamports - price;
    market.protocol.lamports = protocol.unwrap();
    market.mints.set(
        i,
        MintAccount { subject: mint.subject, amount: supply - amount, lamports: mint_lamports.unwrap() },
    );
    match token {
        Some(j) => {
            let t = market.tokens[j];
            market.tokens.set(
                j,
                TokenAccount { owner: t.owner, subject: t.subject, amount: held_now - amount },
            );
        },
        None => {},
    }
    authority.lamports = wallet.unwrap();
    Ok(())
}

/// Withdrawing protocol fees keeps the ledger well formed.
pub proof fn lemma_withdraw_protocol_preserves_wf(
    m: MarketView,
    authority: Authority,
    reserved_minimum: u64,
)
    requires
        m.wf(),
    ensures
        withdraw_protocol_step(m, authority, reserved_minimum).1.wf(),
{
    let n = withdraw_protocol_step(m, authority, reserved_minimum).1;
    assert(n.mints == m.mints && n.tokens == m.tokens);
    lemma_subjects_kept(m, n);
}

/// Withdrawing subject fees keeps the ledger well formed.
pub proof fn lemma_withdraw_mint_preserves_wf(
    m: MarketView,
    authority: Authority,
    subject: Identity,
    reserved_minimum: u64,
)
    requires
        m.wf(),
    ensures
        withdraw_mint_step(m, authority, subject, reserved_minimum).1.wf(),
{
    let out = withdraw_mint_step(m, authority, subject, reserved_minimum);
    if out.0 is Ok {
        let n = out.1;
        lemma_subjects_kept(m, n);
        assert forall|j: int| 0 <= j < n.tokens.len() implies n.has_mint(
            #[trigger] n.tokens[j].subject,
        ) by {
            assert(m.has_mint(m.tokens[j].subject));
        }
        lemma_reserve_update(m.mints, m.mint_index(subject), n.mints[m.mint_index(subject)]);
        lemma_trade_preserves_wf(m, n, subject, 0);
    }
}

/// Pays the protocol owner all protocol fees above `reserved_minimum`, the
/// balance the protocol accumulator must keep.
pub fn withdraw_from_protocol(
    market: &mut Market,
    authority: &mut Authority,
    reserved_minimum: u64,
) -> (r: Result<(), GGError>)
    requires
        old(market)@.wf(),
    ensures
        (r, final(market)@, *final(authority)) == withdraw_protocol_step(
            old(market)@,
            *old(authority),
            reserved_minimum,
        ),
        final(market)@.wf(),
{
    proof {
        lemma_withdraw_protocol_preserves_wf(market@, *authority, reserved_minimum);
    }
    if !authority.key.same(&market.owner) {
        return Err(GGError::Unauthorized);
    }
    let total = market.protocol.lamports;
    if total <= reserved_minimum {
        return Err(GGError::InsufficientFunds);
    }
    let withdrawable = total - reserved_minimum;
    let wallet = match authority.lamports.checked_add(withdrawable) {
        Some(v) => v,
        None => return Err(GGError::MathOverflow),
    };
    market.protocol.lamports = reserved_minimum;
    authority.lamports = wallet;
    Ok(())
}

/// Pays the subject of `subject`'s mint all of the mint's fee income above
/// `reserved_minimum`, the balance the mint must keep.
pub fn withdraw_from_mint(
    market: &mut Market,
    authority: &mut Authority,
    subject: Identity,
    reserved_minimum: u64,
) -> (r: Result<(), GGError>)
    requires
        old(market)@.wf(),
    ensures
        (r, final(market)@, *final(authority)) == withdraw_mint_step(
            old(market)@,
            *old(authority),
            subject,
            reserved_minimum,
        ),
        final(market)@.wf(),
{
    proof {
        lemma_withdraw_mint_preserves_wf(market@, *authority, subject, reserved_minimum);
    }
    let i = match market.find_mint(&subject) {
        Some(i) => i,
        None => return Err(GGError::InvalidSupply),
    };
    let mint = market.mints[i];
    if !mint.subject.same(&authority.key) {
        return Err(GGError::Unauthorized);
    }
    if mint.lamports <= reserved_minimum {
        return Err(GGError::InsufficientFunds);
    }
    let withdrawable = mint.lamports - reserved_minimum;
    let wallet = match authority.lamports.checked_add(withdrawable) {
        Some(v) => v,
        None => return Err(GGError::MathOverflow),
    };
    market.mints.set(
        i,
        MintAccount { subject: mint.subject, amount: mint.amount, lamports: reserved_minimum },
    );
    authority.lamports = wallet;
    Ok(())
}

/// One market operation with its caller and arguments.
pub enum Operation {
    Mint { authority: Authority },
    Buy { authority: Authority, subject: Identity, amount: u64 },
    Sell { authority: Authority, subject: Identity, amount: u64 },
    WithdrawProtocol { authority: Authority, reserved_minimum: u64 },
    WithdrawMint { authority: Authority, subject: Identity, reserved_minimum: u64 },
}

/// The market after one operation, whether it succeeded or failed.
pub open spec fn apply(m: MarketView, op: Operation) -> MarketView {
    match op {
        Operation::Mint { authority } => mint_step(m, authority).1,
        Operation::Buy { authority, subject, amount } => buy_step(m, authority, subject, amount).1,
        Operation::Sell { authority, subject, amount } => sell_step(m, authority, subject, amount).1,
        Operation::WithdrawProtocol { authority, reserved_minimum } => withdraw_protocol_step(
            m,
            authority,
            reserved_minimum,
        ).1,
        Operation::WithdrawMint { authority, subject, reserved_minimum } => withdraw_mint_step(
            m,
            authority,
            subject,
            reserved_minimum,
        ).1,
    }
}

/// The market after a sequence of operations on an empty market.
pub open spec fn run(owner: Identity, ops: Seq<Operation>) -> MarketView
    decreases ops.len(),
{
    if ops.len() == 0 {
        empty_market(owner)
    } else {
        apply(run(owner, ops.drop_last()), ops.last())
    }
}

/// After any sequence of operations from an empty market, no balance is
/// negative and every subject's supply is one genesis unit plus the shares
/// its holders own.
pub proof fn lemma_no_negative_balances(owner: Identity, ops: Seq<Operation>)
    ensures
        run(owner, ops).wf(),
        run(owner, ops).pot >= reserve(run(owner, ops).mints) >= 0,
        run(owner, ops).protocol >= 0,
        forall|i: int|
            0 <= i < run(owner, ops).mints.len() ==> #[trigger] run(owner, ops).mints[i].amount
                >= 1 && held(run(owner, ops).tokens, run(owner, ops).mints[i].subject)
                == run(owner, ops).mints[i].amount - 1,
    decreases ops.len(),
{
    if ops.len() > 0 {
        lemma_no_negative_balances(owner, ops.drop_last());
        let m = run(owner, ops.drop_last());
        match ops.last() {
            Operation::Mint { authority } => lemma_mint_preserves_wf(m, authority),
            Operation::Buy { authority, subject, amount } => lemma_buy_preserves_wf(
                m,
                authority,
                subject,
                amount,
            ),
            Operation::Sell { authority, subject, amount } => lemma_sell_preserves_wf(
                m,
                authority,
                subject,
                amount,
            ),
            Operation::WithdrawProtocol { authority, reserved_minimum } =>
                lemma_withdraw_protocol_preserves_wf(m, authority, reserved_minimum),
            Operation::WithdrawMint { authority, subject, reserved_minimum } =>
                lemma_withdraw_mint_preserves_wf(m, authority, subject, reserved_minimum),
        }
    } else {
        assert(empty_market(owner).wf());
    }
    lemma_reserve_nonnegative(run(owner, ops).mints);
}

/// In a well-formed market the pot covers every sale: selling never fails for
/// want of funds in the pot.
pub proof fn lemma_pot_covers_sales(
    m: MarketView,
    authority: Authority,
    subject: Identity,
    amount: u64,
)
    requires
        m.wf(),
    ensures
        sell_step(m, authority, subject, amount).0 != Err::<(), GGError>(
            GGError::InsufficientFunds,
        ),
{
    if m.has_mint(subject) {
        let i = m.mint_index(subject);
        let supply = m.mints[i].amount;
        if supply > amount {
            lemma_curve_price_value(supply - amount, amount as int);
            lemma_reserve_bound(m.mints, i);
            let price = sell_price_result(supply as int, amount as int);
            if price is Ok {
                assert(reserve_of(supply) == sum_squares((supply - 1) as nat) * 625000);
                assert(price->Ok_0 <= reserve_of(supply));
                assert(m.pot >= price->Ok_0);
            }
        }
    }
}

/// Once a subject is minted, minting it again, whatever the caller's balance,
/// fails with `AlreadyExists` and leaves the market, and so the first mint,
/// as it was.
pub proof fn lemma_mint_guard(m: MarketView, first: Authority, second: Authority)
    requires
        m.wf(),
        second.key == first.key,
        mint_step(m, first).0 is Ok,
    ensures
        mint_step(mint_step(m, first).1, second) == rejected(
            mint_step(m, first).1,
            second,
            GGError::AlreadyExists,
        ),
{
    let n = mint_step(m, first).1;
    assert(n.mints[n.mints.len() - 1].subject == second.key);
    assert(n.has_mint(second.key));
}

} // verus!
