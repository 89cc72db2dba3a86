use swap::addr::OfferKey;
use swap::error::SwapError;
use swap::escrow::{Escrow, Owner};
use swap::make_offer::{make_offer, send_offered_tokens_to_vault, MakeOffer};

const PROGRAM: u64 = 7;
const MAKER: u64 = 1;
const MINT_A: u64 = 10;
const MINT_B: u64 = 20;

fn ctx() -> MakeOffer {
    MakeOffer {
        maker: MAKER,
        token_mint_a: MINT_A,
        token_mint_b: MINT_B,
    }
}

fn vault_owner(id: u64) -> Owner {
    Owner::Vault {
        offer: OfferKey {
            program: PROGRAM,
            maker: MAKER,
            id,
        },
    }
}

#[test]
fn make_offer_funds_vault_and_records_terms() {
    let mut st = Escrow::new(PROGRAM);
    st.mint_to(MAKER, MINT_A, 100);
    let r = make_offer(&mut st, ctx(), 42, 30, 40);
    assert_eq!(r, Ok(()));
    // The vault holds exactly the offered amount.
    assert_eq!(st.holding_amount(vault_owner(42), MINT_A), 30);
    // The maker's asset-A balance went down by exactly the offered amount.
    assert_eq!(st.holding_amount(Owner::User { key: MAKER }, MINT_A), 70);
    // The record stores exactly the declared terms.
    let rec = st.offer_record(MAKER, 42).expect("record must be live");
    assert_eq!(rec.id, 42);
    assert_eq!(rec.maker, MAKER);
    assert_eq!(rec.token_mint_a, MINT_A);
    assert_eq!(rec.token_mint_b, MINT_B);
    assert_eq!(rec.token_b_wanted_amount, 40);
}

#[test]
fn make_offer_with_short_balance_fails_and_changes_nothing() {
    let mut st = Escrow::new(PROGRAM);
    st.mint_to(MAKER, MINT_A, 10);
    let r = make_offer(&mut st, ctx(), 42, 30, 40);
    assert_eq!(r, Err(SwapError::InsufficientFunds));
    assert_eq!(st.holding_amount(Owner::User { key: MAKER }, MINT_A), 10);
    assert!(!st.holding_exists(vault_owner(42), MINT_A));
    assert!(st.offer_record(MAKER, 42).is_none());
}

#[test]
fn reused_id_collides_and_leaves_the_open_offer_untouched() {
    let mut st = Escrow::new(PROGRAM);
    st.mint_to(MAKER, MINT_A, 100);
    assert_eq!(make_offer(&mut st, ctx(), 42, 30, 40), Ok(()));
    // Same (maker, id) again, with different terms.
    let r = make_offer(&mut st, ctx(), 42, 5, 9);
    assert_eq!(r, Err(SwapError::AddressCollision));
    // The existing offer and its vault are untouched.
    assert_eq!(st.holding_amount(vault_owner(42), MINT_A), 30);
    assert_eq!(st.holding_amount(Owner::User { key: MAKER }, MINT_A), 70);
    let rec = st.offer_record(MAKER, 42).expect("record must be live");
    assert_eq!(rec.token_b_wanted_amount, 40);
}

#[test]
fn same_id_is_free_again_for_another_maker() {
    let mut st = Escrow::new(PROGRAM);
    st.mint_to(MAKER, MINT_A, 100);
    st.mint_to(2, MINT_A, 100);
    assert_eq!(make_offer(&mut st, ctx(), 42, 30, 40), Ok(()));
    let other = MakeOffer {
        maker: 2,
        token_mint_a: MINT_A,
        token_mint_b: MINT_B,
    };
    assert_eq!(make_offer(&mut st, other, 42, 25, 35), Ok(()));
    assert_eq!(st.holding_amount(vault_owner(42), MINT_A), 30);
    let other_vault = Owner::Vault {
        offer: OfferKey {
            program: PROGRAM,
            maker: 2,
            id: 42,
        },
    };
    assert_eq!(st.holding_amount(other_vault, MINT_A), 25);
}

#[test]
fn zero_amount_offer_is_allowed() {
    let mut st = Escrow::new(PROGRAM);
    st.mint_to(MAKER, MINT_A, 5);
    assert_eq!(make_offer(&mut st, ctx(), 1, 0, 0), Ok(()));
    assert_eq!(st.holding_amount(vault_owner(1), MINT_A), 0);
    assert!(st.holding_exists(vault_owner(1), MINT_A));
    assert_eq!(st.holding_amount(Owner::User { key: MAKER }, MINT_A), 5);
}

#[test]
fn funding_step_alone_moves_exactly_the_offered_amount() {
    let mut st = Escrow::new(PROGRAM);
    st.mint_to(MAKER, MINT_A, 100);
    let c = ctx();
    let r = send_offered_tokens_to_vault(&mut st, &c, 42, 60);
    assert_eq!(r, Ok(()));
    assert_eq!(st.holding_amount(vault_owner(42), MINT_A), 60);
    assert_eq!(st.holding_amount(Owner::User { key: MAKER }, MINT_A), 40);
}

#[test]
fn error_descriptions_name_the_failure() {
    assert_eq!(
        SwapError::InsufficientFunds.describe(),
        "insufficient funds"
    );
    assert_eq!(SwapError::AddressCollision.describe(), "address collision");
    assert_eq!(SwapError::RecordNotFound.describe(), "record not found");
    assert_eq!(SwapError::AssetMismatch.describe(), "asset mismatch");
    assert_eq!(
        SwapError::AuthorityMismatch.describe(),
        "authority mismatch"
    );
}
