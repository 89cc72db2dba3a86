use swap::addr::OfferKey;
use swap::error::SwapError;
use swap::escrow::{Authority, Escrow, Owner};
use swap::make_offer::{make_offer, MakeOffer};

const PROGRAM: u64 = 7;

#[test]
fn transfer_moves_exactly_the_amount() {
    let mut st = Escrow::new(PROGRAM);
    st.mint_to(1, 10, 100);
    st.mint_to(2, 10, 5);
    let from = st
        .find_account(Owner::User { key: 1 }, 10)
        .expect("funded account exists");
    let to = st
        .find_account(Owner::User { key: 2 }, 10)
        .expect("funded account exists");
    let r = st.transfer_tokens(from, to, 40, 10, Authority::Signer { key: 1 });
    assert_eq!(r, Ok(()));
    assert_eq!(st.holding_amount(Owner::User { key: 1 }, 10), 60);
    assert_eq!(st.holding_amount(Owner::User { key: 2 }, 10), 45);
}

#[test]
fn transfer_checks_the_named_asset_type() {
    let mut st = Escrow::new(PROGRAM);
    st.mint_to(1, 10, 100);
    st.mint_to(2, 20, 5);
    let from = st
        .find_account(Owner::User { key: 1 }, 10)
        .expect("funded account exists");
    let to = st
        .find_account(Owner::User { key: 2 }, 20)
        .expect("funded account exists");
    // The destination holds a different asset than the named one.
    let r = st.transfer_tokens(from, to, 1, 10, Authority::Signer { key: 1 });
    assert_eq!(r, Err(SwapError::AssetMismatch));
    // Naming the destination's asset fails on the source side instead.
    let r = st.transfer_tokens(from, to, 1, 20, Authority::Signer { key: 1 });
    assert_eq!(r, Err(SwapError::AssetMismatch));
    assert_eq!(st.holding_amount(Owner::User { key: 1 }, 10), 100);
    assert_eq!(st.holding_amount(Owner::User { key: 2 }, 20), 5);
}

#[test]
fn transfer_rejects_a_foreign_signature() {
    let mut st = Escrow::new(PROGRAM);
    st.mint_to(1, 10, 100);
    st.mint_to(2, 10, 5);
    let from = st
        .find_account(Owner::User { key: 1 }, 10)
        .expect("funded account exists");
    let to = st
        .find_account(Owner::User { key: 2 }, 10)
        .expect("funded account exists");
    // The taker cannot sign for the maker's account.
    let r = st.transfer_tokens(from, to, 40, 10, Authority::Signer { key: 2 });
    assert_eq!(r, Err(SwapError::AuthorityMismatch));
    assert_eq!(st.holding_amount(Owner::User { key: 1 }, 10), 100);
}

#[test]
fn transfer_rejects_a_short_balance() {
    let mut st = Escrow::new(PROGRAM);
    st.mint_to(1, 10, 30);
    st.mint_to(2, 10, 0);
    let from = st
        .find_account(Owner::User { key: 1 }, 10)
        .expect("funded account exists");
    let to = st
        .find_account(Owner::User { key: 2 }, 10)
        .expect("funded account exists");
    let r = st.transfer_tokens(from, to, 31, 10, Authority::Signer { key: 1 });
    assert_eq!(r, Err(SwapError::InsufficientFunds));
    assert_eq!(st.holding_amount(Owner::User { key: 1 }, 10), 30);
    assert_eq!(st.holding_amount(Owner::User { key: 2 }, 10), 0);
}

#[test]
fn no_signature_can_drain_a_vault() {
    let mut st = Escrow::new(PROGRAM);
    st.mint_to(1, 10, 100);
    st.mint_to(2, 10, 0);
    let ctx = MakeOffer {
        maker: 1,
        token_mint_a: 10,
        token_mint_b: 20,
    };
    assert_eq!(make_offer(&mut st, ctx, 42, 30, 40), Ok(()));
    let vault = Owner::Vault {
        offer: OfferKey {
            program: PROGRAM,
            maker: 1,
            id: 42,
        },
    };
    let from = st.find_account(vault, 10).expect("vault exists");
    let to = st
        .find_account(Owner::User { key: 2 }, 10)
        .expect("funded account exists");
    // Not even the maker's own signature authorizes the vault.
    let r = st.transfer_tokens(from, to, 30, 10, Authority::Signer { key: 1 });
    assert_eq!(r, Err(SwapError::AuthorityMismatch));
    // A derivation with the wrong completion value does not either.
    let wrong = Authority::Derived {
        maker: 1,
        id: 42,
        bump: 0,
    };
    let r = st.transfer_tokens(from, to, 30, 10, wrong);
    assert_eq!(r, Err(SwapError::AuthorityMismatch));
    // A derivation for a different offer does not authorize this vault.
    let other = Authority::Derived {
        maker: 1,
        id: 43,
        bump: 255,
    };
    let r = st.transfer_tokens(from, to, 30, 10, other);
    assert_eq!(r, Err(SwapError::AuthorityMismatch));
    assert_eq!(st.holding_amount(vault, 10), 30);
    // The correct derivation is the one thing that authorizes it.
    let right = Authority::Derived {
        maker: 1,
        id: 42,
        bump: 255,
    };
    let r = st.transfer_tokens(from, to, 30, 10, right);
    assert_eq!(r, Ok(()));
    assert_eq!(st.holding_amount(vault, 10), 0);
    assert_eq!(st.holding_amount(Owner::User { key: 2 }, 10), 30);
}

#[test]
fn closing_an_empty_account_needs_its_authority() {
    let mut st = Escrow::new(PROGRAM);
    st.mint_to(1, 10, 0);
    let o = Owner::User { key: 1 };
    let r = st.close_account(o, 10, Authority::Signer { key: 2 });
    assert_eq!(r, Err(SwapError::AuthorityMismatch));
    assert!(st.holding_exists(o, 10));
    let r = st.close_account(o, 10, Authority::Signer { key: 1 });
    assert_eq!(r, Ok(()));
    assert!(!st.holding_exists(o, 10));
}
