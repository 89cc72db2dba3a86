use swap::addr::OfferKey;
use swap::error::SwapError;
use swap::escrow::{Escrow, Owner};
use swap::make_offer::{make_offer, MakeOffer};
use swap::take_offer::{take_offer, TakeOffer};

const PROGRAM: u64 = 7;
const MAKER: u64 = 1;
const TAKER: u64 = 2;
const MINT_A: u64 = 10;
const MINT_B: u64 = 20;

fn offer_addr(maker: u64, id: u64) -> OfferKey {
    OfferKey {
        program: PROGRAM,
        maker,
        id,
    }
}

fn vault_owner(maker: u64, id: u64) -> Owner {
    Owner::Vault {
        offer: offer_addr(maker, id),
    }
}

fn take_ctx(id: u64) -> TakeOffer {
    TakeOffer {
        taker: TAKER,
        maker: MAKER,
        token_mint_a: MINT_A,
        token_mint_b: MINT_B,
        offer: offer_addr(MAKER, id),
    }
}

/// A world with one open offer: maker escrowed 30 A and wants 40 B; the
/// taker holds 50 B and no A.
fn world_with_open_offer() -> Escrow {
    let mut st = Escrow::new(PROGRAM);
    st.mint_to(MAKER, MINT_A, 100);
    st.mint_to(TAKER, MINT_B, 50);
    let ctx = MakeOffer {
        maker: MAKER,
        token_mint_a: MINT_A,
        token_mint_b: MINT_B,
    };
    assert_eq!(make_offer(&mut st, ctx, 42, 30, 40), Ok(()));
    st
}

#[test]
fn settlement_pays_both_legs_and_reclaims_storage() {
    let mut st = world_with_open_offer();
    assert_eq!(take_offer(&mut st, take_ctx(42)), Ok(()));
    // Vault and record storage no longer exist.
    assert!(!st.holding_exists(vault_owner(MAKER, 42), MINT_A));
    assert!(st.offer_record(MAKER, 42).is_none());
    // The taker received the full vault amount of asset A.
    assert_eq!(st.holding_amount(Owner::User { key: TAKER }, MINT_A), 30);
    // The maker received exactly the wanted amount of asset B.
    assert_eq!(st.holding_amount(Owner::User { key: MAKER }, MINT_B), 40);
    // The taker paid exactly the wanted amount.
    assert_eq!(st.holding_amount(Owner::User { key: TAKER }, MINT_B), 10);
    // The maker's asset-A balance is what the creation left it at.
    assert_eq!(st.holding_amount(Owner::User { key: MAKER }, MINT_A), 70);
}

#[test]
fn settling_a_nonexistent_offer_changes_no_balance() {
    let mut st = world_with_open_offer();
    let r = take_offer(&mut st, take_ctx(99));
    assert_eq!(r, Err(SwapError::RecordNotFound));
    assert_eq!(st.holding_amount(Owner::User { key: TAKER }, MINT_B), 50);
    assert_eq!(st.holding_amount(Owner::User { key: MAKER }, MINT_A), 70);
    assert_eq!(st.holding_amount(vault_owner(MAKER, 42), MINT_A), 30);
}

#[test]
fn wrong_program_address_does_not_resolve() {
    let mut st = world_with_open_offer();
    let mut ctx = take_ctx(42);
    ctx.offer = OfferKey {
        program: PROGRAM + 1,
        maker: MAKER,
        id: 42,
    };
    assert_eq!(take_offer(&mut st, ctx), Err(SwapError::RecordNotFound));
    assert_eq!(st.holding_amount(vault_owner(MAKER, 42), MINT_A), 30);
}

#[test]
fn wrong_maker_identity_is_an_authority_mismatch() {
    let mut st = world_with_open_offer();
    let mut ctx = take_ctx(42);
    ctx.maker = 9;
    assert_eq!(take_offer(&mut st, ctx), Err(SwapError::AuthorityMismatch));
    assert_eq!(st.holding_amount(vault_owner(MAKER, 42), MINT_A), 30);
    assert!(st.offer_record(MAKER, 42).is_some());
}

#[test]
fn wrong_asset_type_is_an_asset_mismatch() {
    let mut st = world_with_open_offer();
    st.mint_to(TAKER, 99, 1);
    let mut ctx = take_ctx(42);
    ctx.token_mint_a = 99;
    assert_eq!(take_offer(&mut st, ctx), Err(SwapError::AssetMismatch));
    let mut ctx_b = take_ctx(42);
    ctx_b.token_mint_b = 99;
    assert_eq!(take_offer(&mut st, ctx_b), Err(SwapError::AssetMismatch));
    assert_eq!(st.holding_amount(vault_owner(MAKER, 42), MINT_A), 30);
}

#[test]
fn short_taker_balance_leaves_the_vault_unchanged() {
    let mut st = Escrow::new(PROGRAM);
    st.mint_to(MAKER, MINT_A, 100);
    st.mint_to(TAKER, MINT_B, 39);
    let ctx = MakeOffer {
        maker: MAKER,
        token_mint_a: MINT_A,
        token_mint_b: MINT_B,
    };
    assert_eq!(make_offer(&mut st, ctx, 42, 30, 40), Ok(()));
    let r = take_offer(&mut st, take_ctx(42));
    assert_eq!(r, Err(SwapError::InsufficientFunds));
    // No partial execution: the vault still escrows the full amount and
    // nobody was paid.
    assert_eq!(st.holding_amount(vault_owner(MAKER, 42), MINT_A), 30);
    assert_eq!(st.holding_amount(Owner::User { key: TAKER }, MINT_B), 39);
    assert_eq!(st.holding_amount(Owner::User { key: MAKER }, MINT_B), 0);
    assert!(st.offer_record(MAKER, 42).is_some());
}

#[test]
fn an_offer_can_only_be_taken_once() {
    let mut st = world_with_open_offer();
    assert_eq!(take_offer(&mut st, take_ctx(42)), Ok(()));
    let taker_a_after_first = st.holding_amount(Owner::User { key: TAKER }, MINT_A);
    let maker_b_after_first = st.holding_amount(Owner::User { key: MAKER }, MINT_B);
    // The second settlement of what was one offer must fail, not pay twice.
    let r = take_offer(&mut st, take_ctx(42));
    assert_eq!(r, Err(SwapError::RecordNotFound));
    assert_eq!(
        st.holding_amount(Owner::User { key: TAKER }, MINT_A),
        taker_a_after_first
    );
    assert_eq!(
        st.holding_amount(Owner::User { key: MAKER }, MINT_B),
        maker_b_after_first
    );
}

#[test]
fn maker_may_take_their_own_offer() {
    let mut st = Escrow::new(PROGRAM);
    st.mint_to(MAKER, MINT_A, 100);
    st.mint_to(MAKER, MINT_B, 50);
    let ctx = MakeOffer {
        maker: MAKER,
        token_mint_a: MINT_A,
        token_mint_b: MINT_B,
    };
    assert_eq!(make_offer(&mut st, ctx, 42, 30, 40), Ok(()));
    let tctx = TakeOffer {
        taker: MAKER,
        maker: MAKER,
        token_mint_a: MINT_A,
        token_mint_b: MINT_B,
        offer: offer_addr(MAKER, 42),
    };
    assert_eq!(take_offer(&mut st, tctx), Ok(()));
    // Paying asset B to oneself is a checked no-op; the escrowed asset A
    // comes back.
    assert_eq!(st.holding_amount(Owner::User { key: MAKER }, MINT_A), 100);
    assert_eq!(st.holding_amount(Owner::User { key: MAKER }, MINT_B), 50);
    assert!(st.offer_record(MAKER, 42).is_none());
}

#[test]
fn both_assets_may_be_the_same_type() {
    let mut st = Escrow::new(PROGRAM);
    st.mint_to(MAKER, 5, 20);
    st.mint_to(TAKER, 5, 9);
    let ctx = MakeOffer {
        maker: MAKER,
        token_mint_a: 5,
        token_mint_b: 5,
    };
    assert_eq!(make_offer(&mut st, ctx, 1, 10, 7), Ok(()));
    let tctx = TakeOffer {
        taker: TAKER,
        maker: MAKER,
        token_mint_a: 5,
        token_mint_b: 5,
        offer: offer_addr(MAKER, 1),
    };
    assert_eq!(take_offer(&mut st, tctx), Ok(()));
    assert_eq!(st.holding_amount(Owner::User { key: TAKER }, 5), 12);
    assert_eq!(st.holding_amount(Owner::User { key: MAKER }, 5), 17);
}

#[test]
fn settling_one_offer_leaves_other_offers_alone() {
    let mut st = Escrow::new(PROGRAM);
    st.mint_to(MAKER, MINT_A, 100);
    st.mint_to(TAKER, MINT_B, 50);
    let ctx = MakeOffer {
        maker: MAKER,
        token_mint_a: MINT_A,
        token_mint_b: MINT_B,
    };
    assert_eq!(make_offer(&mut st, ctx, 1, 30, 40), Ok(()));
    assert_eq!(make_offer(&mut st, ctx, 2, 25, 8), Ok(()));
    assert_eq!(take_offer(&mut st, take_ctx(1)), Ok(()));
    // The other offer and its vault are exactly as the creation left them.
    let rec = st.offer_record(MAKER, 2).expect("record must be live");
    assert_eq!(rec.token_b_wanted_amount, 8);
    assert_eq!(st.holding_amount(vault_owner(MAKER, 2), MINT_A), 25);
    assert_eq!(take_offer(&mut st, take_ctx(2)), Ok(()));
    assert_eq!(st.holding_amount(Owner::User { key: TAKER }, MINT_A), 55);
    assert_eq!(st.holding_amount(Owner::User { key: MAKER }, MINT_B), 48);
}

#[test]
fn full_balances_swap_at_the_numeric_limit() {
    let mut st = Escrow::new(PROGRAM);
    st.mint_to(MAKER, MINT_A, u64::MAX);
    st.mint_to(TAKER, MINT_B, u64::MAX);
    let ctx = MakeOffer {
        maker: MAKER,
        token_mint_a: MINT_A,
        token_mint_b: MINT_B,
    };
    assert_eq!(make_offer(&mut st, ctx, 1, u64::MAX, u64::MAX), Ok(()));
    assert_eq!(st.holding_amount(vault_owner(MAKER, 1), MINT_A), u64::MAX);
    assert_eq!(take_offer(&mut st, take_ctx(1)), Ok(()));
    assert_eq!(
        st.holding_amount(Owner::User { key: TAKER }, MINT_A),
        u64::MAX
    );
    assert_eq!(
        st.holding_amount(Owner::User { key: MAKER }, MINT_B),
        u64::MAX
    );
    assert_eq!(st.holding_amount(Owner::User { key: TAKER }, MINT_B), 0);
    assert_eq!(st.holding_amount(Owner::User { key: MAKER }, MINT_A), 0);
}

#[test]
fn a_settled_id_may_be_reused() {
    let mut st = world_with_open_offer();
    assert_eq!(take_offer(&mut st, take_ctx(42)), Ok(()));
    // Settlement reclaimed the record and vault storage, so the same
    // (maker, id) pair is free again.
    let ctx = MakeOffer {
        maker: MAKER,
        token_mint_a: MINT_A,
        token_mint_b: MINT_B,
    };
    assert_eq!(make_offer(&mut st, ctx, 42, 10, 5), Ok(()));
    assert_eq!(st.holding_amount(vault_owner(MAKER, 42), MINT_A), 10);
    let rec = st.offer_record(MAKER, 42).expect("record must be live");
    assert_eq!(rec.token_b_wanted_amount, 5);
}

#[test]
fn zero_wanted_amount_settles_for_free() {
    let mut st = Escrow::new(PROGRAM);
    st.mint_to(MAKER, MINT_A, 30);
    st.mint_to(TAKER, MINT_B, 0);
    let ctx = MakeOffer {
        maker: MAKER,
        token_mint_a: MINT_A,
        token_mint_b: MINT_B,
    };
    assert_eq!(make_offer(&mut st, ctx, 3, 30, 0), Ok(()));
    assert_eq!(take_offer(&mut st, take_ctx(3)), Ok(()));
    assert_eq!(st.holding_amount(Owner::User { key: TAKER }, MINT_A), 30);
    assert_eq!(st.holding_amount(Owner::User { key: MAKER }, MINT_B), 0);
}
