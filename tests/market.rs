use gg::error::GGError;
use gg::gg::{
    buy_shares, initialize, mint, sell_shares, withdraw_from_mint, withdraw_from_protocol,
};
use gg::state::{Authority, Identity, Market, MintAccount, TokenAccount};

fn id(b: u8) -> Identity {
    Identity { key: [b; 32] }
}

fn wallet(b: u8, lamports: u64) -> Authority {
    Authority { key: id(b), lamports }
}

fn holders_total(m: &Market, subject: Identity) -> u64 {
    m.tokens
        .iter()
        .filter(|t| t.subject == subject)
        .map(|t| t.amount)
        .sum()
}

#[test]
fn identity_comparison() {
    assert!(id(1).same(&id(1)));
    assert!(!id(1).same(&id(2)));
    let mut k = [1u8; 32];
    k[31] = 9;
    assert!(!id(1).same(&Identity { key: k }));
}

#[test]
fn initialize_is_empty() {
    let m = initialize(id(9));
    assert_eq!(m.owner, id(9));
    assert_eq!(m.pot.lamports, 0);
    assert_eq!(m.protocol.lamports, 0);
    assert!(m.mints.is_empty());
    assert!(m.tokens.is_empty());
}

#[test]
fn mint_charges_fee_and_sets_supply() {
    let mut m = initialize(id(9));
    let mut a = wallet(1, 1_000_000_000);
    assert_eq!(mint(&mut m, &mut a), Ok(()));
    assert_eq!(a.lamports, 500_000_000);
    assert_eq!(m.protocol.lamports, 500_000_000);
    assert_eq!(m.mints, vec![MintAccount { subject: id(1), amount: 1, lamports: 0 }]);
}

#[test]
fn mint_twice_fails() {
    let mut m = initialize(id(9));
    let mut a = wallet(1, 2_000_000_000);
    assert_eq!(mint(&mut m, &mut a), Ok(()));
    assert_eq!(mint(&mut m, &mut a), Err(GGError::AlreadyExists));
    assert_eq!(a.lamports, 1_500_000_000);
    assert_eq!(m.protocol.lamports, 500_000_000);
    assert_eq!(m.mints, vec![MintAccount { subject: id(1), amount: 1, lamports: 0 }]);
}

#[test]
fn mint_without_funds_fails() {
    let mut m = initialize(id(9));
    let mut a = wallet(1, 499_999_999);
    assert_eq!(mint(&mut m, &mut a), Err(GGError::InsufficientFunds));
    assert!(m.mints.is_empty());
    assert_eq!(a.lamports, 499_999_999);
}

#[test]
fn buy_then_sell_scenario() {
    let mut m = initialize(id(9));
    let mut subject = wallet(1, 1_000_000_000);
    assert_eq!(mint(&mut m, &mut subject), Ok(()));
    assert_eq!(m.mints[0].amount, 1);

    let mut holder = wallet(2, 100_000_000);
    assert_eq!(buy_shares(&mut m, &mut holder, id(1), 5), Ok(()));
    assert_eq!(m.mints[0].amount, 6);
    assert_eq!(m.mints[0].lamports, 937_500);
    assert_eq!(m.pot.lamports, 18_750_000);
    assert_eq!(m.protocol.lamports, 500_000_000 + 937_500);
    assert_eq!(holder.lamports, 100_000_000 - 20_625_000);
    assert_eq!(m.tokens, vec![TokenAccount { owner: id(2), subject: id(1), amount: 5 }]);

    assert_eq!(sell_shares(&mut m, &mut holder, id(1), 5), Ok(()));
    assert_eq!(m.mints[0].amount, 1);
    assert_eq!(m.tokens[0].amount, 0);
    assert_eq!(m.pot.lamports, 0);
    assert_eq!(m.mints[0].lamports, 1_875_000);
    assert_eq!(m.protocol.lamports, 500_000_000 + 1_875_000);
    assert_eq!(holder.lamports, 100_000_000 - 20_625_000 + 16_875_000);

    assert_eq!(
        sell_shares(&mut m, &mut holder, id(1), 1),
        Err(GGError::InsufficientShares)
    );
    assert_eq!(m.mints[0].amount, 1);
}

#[test]
fn buy_adds_to_existing_holding() {
    let mut m = initialize(id(9));
    let mut subject = wallet(1, 1_000_000_000);
    mint(&mut m, &mut subject).unwrap();
    let mut holder = wallet(2, 1_000_000_000);
    buy_shares(&mut m, &mut holder, id(1), 2).unwrap();
    buy_shares(&mut m, &mut holder, id(1), 3).unwrap();
    assert_eq!(m.tokens.len(), 1);
    assert_eq!(m.tokens[0].amount, 5);
    assert_eq!(m.mints[0].amount, 6);
    // 625_000 for the first purchase, 1_250_000 * (4 + 9 + 16) / 2 for the second.
    assert_eq!(m.pot.lamports, 625_000 + 18_125_000);
}

#[test]
fn buy_errors() {
    let mut m = initialize(id(9));
    let mut subject = wallet(1, 1_000_000_000);
    mint(&mut m, &mut subject).unwrap();
    let mut holder = wallet(2, 1_000_000);
    assert_eq!(buy_shares(&mut m, &mut holder, id(3), 1), Err(GGError::InvalidSupply));
    assert_eq!(buy_shares(&mut m, &mut holder, id(1), 0), Err(GGError::InvalidSupply));
    assert_eq!(buy_shares(&mut m, &mut holder, id(1), 5), Err(GGError::InsufficientFunds));
    assert_eq!(
        buy_shares(&mut m, &mut holder, id(1), u64::MAX),
        Err(GGError::MathOverflow)
    );
    assert_eq!(holder.lamports, 1_000_000);
    assert_eq!(m.pot.lamports, 0);
    assert_eq!(m.mints[0].amount, 1);
    assert!(m.tokens.is_empty());
}

#[test]
fn sell_errors() {
    let mut m = initialize(id(9));
    let mut subject = wallet(1, 1_000_000_000);
    mint(&mut m, &mut subject).unwrap();
    let mut holder = wallet(2, 0);
    assert_eq!(sell_shares(&mut m, &mut holder, id(3), 1), Err(GGError::InvalidSupply));
    assert_eq!(
        sell_shares(&mut m, &mut holder, id(1), 1),
        Err(GGError::InsufficientShares)
    );
    assert_eq!(sell_shares(&mut m, &mut holder, id(1), 0), Ok(()));
    assert!(m.tokens.is_empty());
    assert_eq!(m.mints[0].amount, 1);
    assert_eq!(holder.lamports, 0);
}

#[test]
fn withdraw_protocol_fees() {
    let mut m = initialize(id(9));
    let mut subject = wallet(1, 1_000_000_000);
    mint(&mut m, &mut subject).unwrap();
    let mut stranger = wallet(3, 0);
    assert_eq!(
        withdraw_from_protocol(&mut m, &mut stranger, 1000),
        Err(GGError::Unauthorized)
    );
    let mut owner = wallet(9, 5);
    assert_eq!(
        withdraw_from_protocol(&mut m, &mut owner, 500_000_000),
        Err(GGError::InsufficientFunds)
    );
    assert_eq!(withdraw_from_protocol(&mut m, &mut owner, 1000), Ok(()));
    assert_eq!(m.protocol.lamports, 1000);
    assert_eq!(owner.lamports, 5 + 499_999_000);
}

#[test]
fn withdraw_protocol_overflow() {
    let mut m = initialize(id(9));
    let mut subject = wallet(1, 1_000_000_000);
    mint(&mut m, &mut subject).unwrap();
    let mut owner = wallet(9, u64::MAX);
    assert_eq!(withdraw_from_protocol(&mut m, &mut owner, 0), Err(GGError::MathOverflow));
    assert_eq!(m.protocol.lamports, 500_000_000);
}

#[test]
fn withdraw_subject_fees() {
    let mut m = initialize(id(9));
    let mut subject = wallet(1, 1_000_000_000);
    mint(&mut m, &mut subject).unwrap();
    let mut holder = wallet(2, 100_000_000);
    buy_shares(&mut m, &mut holder, id(1), 5).unwrap();
    assert_eq!(
        withdraw_from_mint(&mut m, &mut holder, id(1), 10),
        Err(GGError::Unauthorized)
    );
    assert_eq!(
        withdraw_from_mint(&mut m, &mut subject, id(2), 10),
        Err(GGError::InvalidSupply)
    );
    assert_eq!(
        withdraw_from_mint(&mut m, &mut subject, id(1), 937_500),
        Err(GGError::InsufficientFunds)
    );
    let before = subject.lamports;
    assert_eq!(withdraw_from_mint(&mut m, &mut subject, id(1), 500), Ok(()));
    assert_eq!(m.mints[0].lamports, 500);
    assert_eq!(subject.lamports, before + 937_000);
}

#[test]
fn holdings_track_supply_through_a_session() {
    let mut m = initialize(id(9));
    let mut a = wallet(1, 10_000_000_000);
    let mut b = wallet(2, 10_000_000_000);
    let mut c = wallet(3, 10_000_000_000);
    mint(&mut m, &mut a).unwrap();
    mint(&mut m, &mut b).unwrap();
    buy_shares(&mut m, &mut c, id(1), 4).unwrap();
    buy_shares(&mut m, &mut a, id(2), 3).unwrap();
    buy_shares(&mut m, &mut b, id(1), 2).unwrap();
    sell_shares(&mut m, &mut c, id(1), 3).unwrap();
    assert_eq!(sell_shares(&mut m, &mut a, id(2), 4), Err(GGError::InsufficientShares));
    withdraw_from_mint(&mut m, &mut a, id(1), 0).unwrap();
    for mint_account in m.mints.iter() {
        assert!(mint_account.amount >= 1);
        assert_eq!(holders_total(&m, mint_account.subject), mint_account.amount - 1);
    }
    assert_eq!(m.mints[0].amount, 4);
    assert_eq!(m.mints[1].amount, 4);
}

#[test]
fn pot_pays_out_every_sale() {
    let mut m = initialize(id(9));
    let mut a = wallet(1, 10_000_000_000);
    let mut b = wallet(2, 10_000_000_000);
    let mut c = wallet(3, 10_000_000_000);
    mint(&mut m, &mut a).unwrap();
    buy_shares(&mut m, &mut b, id(1), 3).unwrap();
    buy_shares(&mut m, &mut c, id(1), 7).unwrap();
    buy_shares(&mut m, &mut b, id(1), 2).unwrap();
    assert_eq!(m.mints[0].amount, 13);
    // The pot holds the curve's price from a supply of one to thirteen.
    assert_eq!(Ok(m.pot.lamports), gg::utils::get_price(1, 12));
    sell_shares(&mut m, &mut b, id(1), 5).unwrap();
    sell_shares(&mut m, &mut c, id(1), 7).unwrap();
    assert_eq!(m.mints[0].amount, 1);
    assert_eq!(m.pot.lamports, 0);
}
