use swap::addr::{complete_offer_address, derive_offer_address, OfferKey, BUMP_SEARCH_TOP};

#[test]
fn derivation_is_deterministic() {
    let (key1, bump1) = derive_offer_address(7, 1, 42);
    let (key2, bump2) = derive_offer_address(7, 1, 42);
    assert_eq!(key1, key2);
    assert_eq!(bump1, bump2);
    assert_eq!(
        key1,
        OfferKey {
            program: 7,
            maker: 1,
            id: 42
        }
    );
}

#[test]
fn distinct_pairs_never_collide() {
    let (k_base, _) = derive_offer_address(7, 1, 42);
    let (k_other_id, _) = derive_offer_address(7, 1, 43);
    let (k_other_maker, _) = derive_offer_address(7, 2, 42);
    let (k_other_program, _) = derive_offer_address(8, 1, 42);
    assert_ne!(k_base, k_other_id);
    assert_ne!(k_base, k_other_maker);
    assert_ne!(k_base, k_other_program);
}

#[test]
fn stored_bump_reproduces_the_address() {
    let (key, bump) = derive_offer_address(7, 1, 42);
    assert_eq!(complete_offer_address(7, 1, 42, bump), Some(key));
}

#[test]
fn wrong_bump_fails_to_complete() {
    let (_, bump) = derive_offer_address(7, 1, 42);
    assert_eq!(bump, BUMP_SEARCH_TOP);
    assert_eq!(complete_offer_address(7, 1, 42, 0), None);
    assert_eq!(complete_offer_address(7, 1, 42, bump - 1), None);
}
