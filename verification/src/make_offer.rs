//! Offer creation: fund a fresh vault with the offered asset and allocate
//! the offer record, as a single all-or-nothing operation.

use vstd::prelude::*;

use crate::addr::BUMP_SEARCH_TOP;
use crate::addr::derive_offer_address;
use crate::addr::offer_key;
use crate::error::SwapError;
use crate::escrow::Authority;
use crate::escrow::Escrow;
use crate::escrow::Owner;
use crate::escrow::acct_key_is;
use crate::escrow::lemma_acct_at;
use crate::escrow::lemma_offers_push;
use crate::escrow::seq_offers_unique;
use crate::escrow::seq_unique;
use crate::state::Offer;

verus! {

/// Caller context for offer creation: the already-verified maker identity
/// and the two asset types being exchanged. The maker's asset-A holding
/// account is resolved in the escrow state itself.
#[derive(Clone, Copy, PartialEq, Eq, Structural, Debug)]
pub struct MakeOffer {
    /// The offer's creator; must have signed the operation.
    pub maker: u64,
    /// The asset type the maker deposits into the vault.
    pub token_mint_a: u64,
    /// The asset type the maker wants in return.
    pub token_mint_b: u64,
}

/// The record a successful creation with these inputs persists.
pub open spec fn made_offer(ctx: MakeOffer, id: u64, token_b_wanted_amount: u64) -> Offer {
    Offer {
        id,
        maker: ctx.maker,
        token_mint_a: ctx.token_mint_a,
        token_mint_b: ctx.token_mint_b,
        token_b_wanted_amount,
        bump: BUMP_SEARCH_TOP,
    }
}

/// What a successful `make_offer(id, offered, wanted)` run leaves behind:
/// the record is live with exactly the declared fields, the vault holds
/// exactly the offered amount, the maker's asset-A balance went down by
/// exactly that amount, and nothing else changed.
pub open spec fn make_ok_post(
    pre: Escrow,
    ctx: MakeOffer,
    id: u64,
    offered: u64,
    wanted: u64,
    post: Escrow,
) -> bool {
    let maker_o = Owner::User { key: ctx.maker };
    let vo = pre.vault_owner(ctx.maker, id);
    &&& post.program == pre.program
    &&& post.has_offer(ctx.maker, id)
    &&& post.offer_at(ctx.maker, id) == made_offer(ctx, id, wanted)
    &&& post.has_holding(vo, ctx.token_mint_a)
    &&& post.amount_of(vo, ctx.token_mint_a) == offered
    &&& post.amount_of(maker_o, ctx.token_mint_a) == pre.amount_of(maker_o, ctx.token_mint_a)
        - offered
    &&& forall|mk: u64, i: u64|
        !(mk == ctx.maker && i == id) ==> ((#[trigger] post.has_offer(mk, i) <==> pre.has_offer(
            mk,
            i,
        )) && (post.has_offer(mk, i) ==> post.offer_at(mk, i) == pre.offer_at(mk, i)))
    &&& forall|o: Owner, m: u64| #[trigger]
        post.has_holding(o, m) <==> (pre.has_holding(o, m) || (o == vo && m == ctx.token_mint_a))
    &&& forall|o: Owner, m: u64|
        !(o == vo && m == ctx.token_mint_a) && !(o == maker_o && m == ctx.token_mint_a)
            ==> #[trigger] post.amount_of(o, m) == pre.amount_of(o, m)
}

/// Moves the offered amount of asset A from the maker's holding account into
/// the offer's freshly derived vault, authorized by the maker's signature.
/// Fails with `InsufficientFunds`, and changes nothing, exactly when the
/// maker's balance is short; otherwise the vault is created and holds
/// exactly the offered amount.
pub fn send_offered_tokens_to_vault(
    escrow: &mut Escrow,
    ctx: &MakeOffer,
    id: u64,
    token_a_offered_amount: u64,
) -> (r: Result<(), SwapError>)
    requires
        seq_unique(old(escrow).accounts@),
        old(escrow).has_holding(Owner::User { key: ctx.maker }, ctx.token_mint_a),
        !old(escrow).has_holding(old(escrow).vault_owner(ctx.maker, id), ctx.token_mint_a),
    ensures
        seq_unique(final(escrow).accounts@),
        final(escrow).program == old(escrow).program,
        final(escrow).offers@ == old(escrow).offers@,
        ({
            let maker_o = Owner::User { key: ctx.maker };
            let vo = old(escrow).vault_owner(ctx.maker, id);
            &&& (r is Ok <==> token_a_offered_amount <= old(escrow).amount_of(
                maker_o,
                ctx.token_mint_a,
            ))
            &&& (r is Err ==> *final(escrow) == *old(escrow) && r == Err::<(), SwapError>(
                SwapError::InsufficientFunds,
            ))
            &&& (r is Ok ==> {
                &&& final(escrow).has_holding(vo, ctx.token_mint_a)
                &&& final(escrow).amount_of(vo, ctx.token_mint_a) == token_a_offered_amount
                &&& final(escrow).amount_of(maker_o, ctx.token_mint_a) == old(escrow).amount_of(
                    maker_o,
                    ctx.token_mint_a,
                ) - token_a_offered_amount
                &&& forall|o: Owner, m: u64| #[trigger]
                    final(escrow).has_holding(o, m) <==> (old(escrow).has_holding(o, m) || (o == vo
                        && m == ctx.token_mint_a))
                &&& forall|o: Owner, m: u64|
                    !(o == vo && m == ctx.token_mint_a) && !(o == maker_o && m
                        == ctx.token_mint_a) ==> #[trigger] final(escrow).amount_of(o, m) == old(
                        escrow,
                    ).amount_of(o, m)
            })
        }),
{
    let maker_o = Owner::User { key: ctx.maker };
    let (vault_key, _bump) = derive_offer_address(escrow.program, ctx.maker, id);
    let vo = Owner::Vault { offer: vault_key };
    let maker_probe = escrow.find_account(maker_o, ctx.token_mint_a);
    match maker_probe {
        None => {
            // Unreachable: the maker's holding account is required to exist.
            Err(SwapError::InsufficientFunds)
        },
        Some(maker_pos) => {
            proof {
                lemma_acct_at(escrow.accounts@, maker_pos as int, maker_o, ctx.token_mint_a);
            }
            if escrow.accounts[maker_pos].amount < token_a_offered_amount {
                return Err(SwapError::InsufficientFunds);
            }
            escrow.ensure_holding(vo, ctx.token_mint_a);
            let ghost mid = *escrow;
            let from_probe = escrow.find_account(maker_o, ctx.token_mint_a);
            let to_probe = escrow.find_account(vo, ctx.token_mint_a);
            match (from_probe, to_probe) {
                (Some(from), Some(to)) => {
                    proof {
                        lemma_acct_at(mid.accounts@, from as int, maker_o, ctx.token_mint_a);
                        lemma_acct_at(mid.accounts@, to as int, vo, ctx.token_mint_a);
                        assert(mid.amount_of(vo, ctx.token_mint_a) == old(escrow).amount_of(
                            vo,
                            ctx.token_mint_a,
                        ));
                        assert(mid.amount_of(maker_o, ctx.token_mint_a) == old(escrow).amount_of(
                            maker_o,
                            ctx.token_mint_a,
                        ));
                        assert(mid.accounts@[to as int].amount == 0);
                    }
                    let r = escrow.transfer_tokens(
                        from,
                        to,
                        token_a_offered_amount,
                        ctx.token_mint_a,
                        Authority::Signer { key: ctx.maker },
                    );
                    proof {
                        let src = mid.accounts@[from as int];
                        let dst = mid.accounts@[to as int];
                        assert(r is Ok);
                        assert forall|o: Owner, m: u64| #[trigger]
                            escrow.has_holding(o, m) <==> (old(escrow).has_holding(o, m) || (o
                            == vo && m == ctx.token_mint_a)) by {
                            assert(escrow.has_holding(o, m) <==> mid.has_holding(o, m));
                            assert(mid.has_holding(o, m) <==> (old(escrow).has_holding(o, m) || (o
                                == vo && m == ctx.token_mint_a)));
                        }
                        assert forall|o: Owner, m: u64|
                            !(o == vo && m == ctx.token_mint_a) && !(o == maker_o && m
                                == ctx.token_mint_a) implies #[trigger] escrow.amount_of(o, m)
                            == old(escrow).amount_of(o, m) by {
                            assert(escrow.amount_of(o, m) as int == mid.amount_of(o, m) as int + (
                            if acct_key_is(src, o, m) {
                                -(token_a_offered_amount as int)
                            } else {
                                0
                            }) + (if acct_key_is(dst, o, m) {
                                token_a_offered_amount as int
                            } else {
                                0
                            }));
                            assert(mid.amount_of(o, m) == old(escrow).amount_of(o, m));
                        }
                        assert(escrow.amount_of(vo, ctx.token_mint_a) as int == mid.amount_of(
                            vo,
                            ctx.token_mint_a,
                        ) as int + token_a_offered_amount as int);
                        assert(escrow.amount_of(maker_o, ctx.token_mint_a) as int == mid.amount_of(
                            maker_o,
                            ctx.token_mint_a,
                        ) as int - token_a_offered_amount as int);
                    }
                    r
                },
                _ => {
                    // Unreachable: both accounts were just resolved.
                    proof {
                        assert(false);
                    }
                    Err(SwapError::InsufficientFunds)
                },
            }
        },
    }
}

/// Allocates and populates the offer record at its derived address. Fails
/// with `AddressCollision`, and changes nothing, exactly when a live record
/// already occupies that address (the maker reused an outstanding id).
pub fn save_offer(
    escrow: &mut Escrow,
    ctx: &MakeOffer,
    id: u64,
    token_b_wanted_amount: u64,
    bump: u8,
) -> (r: Result<(), SwapError>)
    requires
        seq_offers_unique(old(escrow).offers@),
    ensures
        seq_offers_unique(final(escrow).offers@),
        final(escrow).program == old(escrow).program,
        final(escrow).accounts@ == old(escrow).accounts@,
        r is Ok <==> !old(escrow).has_offer(ctx.maker, id),
        r == Err::<(), SwapError>(SwapError::AddressCollision) <==> old(escrow).has_offer(
            ctx.maker,
            id,
        ),
        r is Err ==> *final(escrow) == *old(escrow),
        r is Ok ==> {
            &&& final(escrow).has_offer(ctx.maker, id)
            &&& final(escrow).offer_at(ctx.maker, id) == (Offer {
                id,
                maker: ctx.maker,
                token_mint_a: ctx.token_mint_a,
                token_mint_b: ctx.token_mint_b,
                token_b_wanted_amount,
                bump,
            })
            &&& forall|mk: u64, i: u64|
                !(mk == ctx.maker && i == id) ==> ((#[trigger] final(escrow).has_offer(mk, i) <==> old(
                    escrow,
                ).has_offer(mk, i)) && (final(escrow).has_offer(mk, i) ==> final(escrow).offer_at(
                    mk,
                    i,
                ) == old(escrow).offer_at(mk, i)))
        },
{
    match escrow.find_offer(ctx.maker, id) {
        Some(_) => Err(SwapError::AddressCollision),
        None => {
            let rec = Offer {
                id,
                maker: ctx.maker,
                token_mint_a: ctx.token_mint_a,
                token_mint_b: ctx.token_mint_b,
                token_b_wanted_amount,
                bump,
            };
            proof {
                lemma_offers_push(escrow.offers@, rec);
            }
            escrow.offers.push(rec);
            Ok(())
        },
    }
}

/// Creates an offer: escrows `token_a_offered_amount` of asset A in the
/// offer's vault and records that `token_b_wanted_amount` of asset B is
/// wanted in return. The two steps commit together or not at all. Fails with
/// `AddressCollision` exactly when `(maker, id)` already names a live offer
/// (checked first), and with `InsufficientFunds` exactly when the maker's
/// asset-A balance is short; every failure leaves the world unchanged.
pub fn make_offer(
    escrow: &mut Escrow,
    ctx: MakeOffer,
    id: u64,
    token_a_offered_amount: u64,
    token_b_wanted_amount: u64,
) -> (r: Result<(), SwapError>)
    requires
        old(escrow).wf(),
        old(escrow).has_holding(Owner::User { key: ctx.maker }, ctx.token_mint_a),
    ensures
        final(escrow).program == old(escrow).program,
        r is Ok <==> (!old(escrow).has_offer(ctx.maker, id) && token_a_offered_amount <= old(
            escrow,
        ).amount_of(Owner::User { key: ctx.maker }, ctx.token_mint_a)),
        r == Err::<(), SwapError>(SwapError::AddressCollision) <==> old(escrow).has_offer(
            ctx.maker,
            id,
        ),
        r == Err::<(), SwapError>(SwapError::InsufficientFunds) <==> (!old(escrow).has_offer(
            ctx.maker,
            id,
        ) && token_a_offered_amount > old(escrow).amount_of(
            Owner::User { key: ctx.maker },
            ctx.token_mint_a,
        )),
        r is Err ==> *final(escrow) == *old(escrow),
        r is Ok ==> final(escrow).wf() && make_ok_post(
            *old(escrow),
            ctx,
            id,
            token_a_offered_amount,
            token_b_wanted_amount,
            *final(escrow),
        ),
{
    let maker_o = Owner::User { key: ctx.maker };
    let (vault_key, bump) = derive_offer_address(escrow.program, ctx.maker, id);
    match escrow.find_offer(ctx.maker, id) {
        Some(_) => {
            return Err(SwapError::AddressCollision);
        },
        None => {},
    }
    let maker_probe = escrow.find_account(maker_o, ctx.token_mint_a);
    match maker_probe {
        None => {
            // Unreachable: the maker's holding account is required to exist.
            proof {
                assert(false);
            }
            Err(SwapError::InsufficientFunds)
        },
        Some(maker_pos) => {
            proof {
                lemma_acct_at(escrow.accounts@, maker_pos as int, maker_o, ctx.token_mint_a);
            }
            if escrow.accounts[maker_pos].amount < token_a_offered_amount {
                return Err(SwapError::InsufficientFunds);
            }
            let ghost pre = *escrow;
            let ghost vo = pre.vault_owner(ctx.maker, id);
            proof {
                // A live vault would imply a live record, and there is none.
                if pre.has_holding(Owner::Vault { offer: offer_key(pre.program, ctx.maker, id) },
                    ctx.token_mint_a) {
                    assert(pre.has_offer(ctx.maker, id));
                }
            }
            let r1 = send_offered_tokens_to_vault(escrow, &ctx, id, token_a_offered_amount);
            match r1 {
                Err(e) => {
                    // Unreachable: the maker's balance was checked above.
                    proof {
                        assert(false);
                    }
                    Err(e)
                },
                Ok(()) => {
                    let ghost mid = *escrow;
                    let r2 = save_offer(escrow, &ctx, id, token_b_wanted_amount, bump);
                    match r2 {
                        Err(e) => {
                            // Unreachable: the collision was checked above.
                            proof {
                                assert(!mid.has_offer(ctx.maker, id));
                                assert(false);
                            }
                            Err(e)
                        },
                        Ok(()) => {
                            proof {
                                lemma_make_offer_wf(pre, mid, *escrow, ctx, id,
                                    token_a_offered_amount, token_b_wanted_amount);
                            }
                            Ok(())
                        },
                    }
                },
            }
        },
    }
}

/// Composes the two creation steps: starting from a well-formed world with
/// no record at the derived address, funding the vault and then saving the
/// record yields a well-formed world satisfying the creation contract.
proof fn lemma_make_offer_wf(
    pre: Escrow,
    mid: Escrow,
    post: Escrow,
    ctx: MakeOffer,
    id: u64,
    offered: u64,
    wanted: u64,
)
    requires
        pre.wf(),
        !pre.has_offer(ctx.maker, id),
        mid.program == pre.program,
        mid.offers@ == pre.offers@,
        seq_unique(mid.accounts@),
        mid.has_holding(pre.vault_owner(ctx.maker, id), ctx.token_mint_a),
        mid.amount_of(pre.vault_owner(ctx.maker, id), ctx.token_mint_a) == offered,
        mid.amount_of(Owner::User { key: ctx.maker }, ctx.token_mint_a) == pre.amount_of(
            Owner::User { key: ctx.maker },
            ctx.token_mint_a,
        ) - offered,
        forall|o: Owner, m: u64| #[trigger]
            mid.has_holding(o, m) <==> (pre.has_holding(o, m) || (o == pre.vault_owner(
                ctx.maker,
                id,
            ) && m == ctx.token_mint_a)),
        forall|o: Owner, m: u64|
            !(o == pre.vault_owner(ctx.maker, id) && m == ctx.token_mint_a) && !(o == (Owner::User {
                key: ctx.maker,
            }) && m == ctx.token_mint_a) ==> #[trigger] mid.amount_of(o, m) == pre.amount_of(o, m),
        post.program == mid.program,
        post.accounts@ == mid.accounts@,
        seq_offers_unique(post.offers@),
        post.has_offer(ctx.maker, id),
        post.offer_at(ctx.maker, id) == made_offer(ctx, id, wanted),
        forall|mk: u64, i: u64|
            !(mk == ctx.maker && i == id) ==> ((#[trigger] post.has_offer(mk, i) <==> mid.has_offer(
                mk,
                i,
            )) && (post.has_offer(mk, i) ==> post.offer_at(mk, i) == mid.offer_at(mk, i))),
    ensures
        post.wf(),
        make_ok_post(pre, ctx, id, offered, wanted, post),
{
    let maker_o = Owner::User { key: ctx.maker };
    let vo = pre.vault_owner(ctx.maker, id);
    assert(seq_unique(post.accounts@));
    assert forall|mk: u64, i: u64| #[trigger]
        post.has_offer(mk, i) implies post.offer_at(mk, i).bump == BUMP_SEARCH_TOP
        && post.has_holding(post.vault_owner(mk, i), post.offer_at(mk, i).token_mint_a) by {
        if mk == ctx.maker && i == id {
            assert(post.offer_at(mk, i) == made_offer(ctx, id, wanted));
            assert(post.has_holding(vo, ctx.token_mint_a) <==> mid.has_holding(
                vo,
                ctx.token_mint_a,
            ));
            assert(post.vault_owner(mk, i) == vo);
        } else {
            assert(mid.has_offer(mk, i));
            assert(pre.has_offer(mk, i));
            assert(post.offer_at(mk, i) == pre.offer_at(mk, i));
            assert(pre.has_holding(pre.vault_owner(mk, i), pre.offer_at(mk, i).token_mint_a));
            assert(mid.has_holding(pre.vault_owner(mk, i), pre.offer_at(mk, i).token_mint_a));
            assert(post.has_holding(pre.vault_owner(mk, i), pre.offer_at(mk, i).token_mint_a)
                <==> mid.has_holding(pre.vault_owner(mk, i), pre.offer_at(mk, i).token_mint_a));
            assert(post.vault_owner(mk, i) == pre.vault_owner(mk, i));
        }
    }
    assert forall|k: crate::addr::OfferKey, m: u64| #[trigger]
        post.has_holding(Owner::Vault { offer: k }, m) implies k.program == post.program
        && post.has_offer(k.maker, k.id) && m == post.offer_at(k.maker, k.id).token_mint_a by {
        assert(mid.has_holding(Owner::Vault { offer: k }, m));
        if (Owner::Vault { offer: k }) == vo && m == ctx.token_mint_a {
            assert(k == offer_key(pre.program, ctx.maker, id));
            assert(post.offer_at(ctx.maker, id) == made_offer(ctx, id, wanted));
        } else {
            assert(pre.has_holding(Owner::Vault { offer: k }, m));
            assert(pre.has_offer(k.maker, k.id));
            assert(!(k.maker == ctx.maker && k.id == id));
            assert(post.has_offer(k.maker, k.id));
            assert(post.offer_at(k.maker, k.id) == pre.offer_at(k.maker, k.id));
        }
    }
    assert(post.amount_of(vo, ctx.token_mint_a) == offered);
    assert(post.amount_of(maker_o, ctx.token_mint_a) == pre.amount_of(maker_o, ctx.token_mint_a)
        - offered);
    assert forall|o: Owner, m: u64| #[trigger]
        post.has_holding(o, m) <==> (pre.has_holding(o, m) || (o == vo && m
        == ctx.token_mint_a)) by {
        assert(post.has_holding(o, m) <==> mid.has_holding(o, m));
    }
    assert forall|o: Owner, m: u64|
        !(o == vo && m == ctx.token_mint_a) && !(o == maker_o && m
            == ctx.token_mint_a) implies #[trigger] post.amount_of(o, m) == pre.amount_of(
        o,
        m,
    ) by {
        assert(post.amount_of(o, m) == mid.amount_of(o, m));
        assert(mid.amount_of(o, m) == pre.amount_of(o, m));
    }
}

} // verus!
