//! Offer settlement: pay the maker the wanted amount of asset B, then drain
//! the vault to the taker and reclaim both the vault and the record, as a
//! single all-or-nothing operation.

use vstd::prelude::*;

use crate::addr::OfferKey;
use crate::addr::complete_offer_address;
use crate::addr::offer_key;
use crate::error::SwapError;
use crate::escrow::Authority;
use crate::escrow::Escrow;
use crate::escrow::Owner;
use crate::escrow::acct_key_is;
use crate::escrow::authorizes;
use crate::escrow::check_authority;
use crate::escrow::lemma_acct_at;
use crate::escrow::lemma_offer_at;
use crate::escrow::seq_offers_unique;
use crate::escrow::seq_unique;
use crate::state::Offer;

verus! {

/// Caller context for settlement: the already-verified taker identity, the
/// expected parties and asset types, and the derived address the target
/// record was resolved at (which carries the maker identity and offer id).
#[derive(Clone, Copy, PartialEq, Eq, Structural, Debug)]
pub struct TakeOffer {
    /// The identity settling the offer; must have signed the operation.
    pub taker: u64,
    /// The expected offer creator, to be paid in asset B.
    pub maker: u64,
    /// The expected escrowed asset type.
    pub token_mint_a: u64,
    /// The expected wanted asset type.
    pub token_mint_b: u64,
    /// The derived address the target record is resolved at.
    pub offer: OfferKey,
}

/// Whether the derived address resolves to a live record of this program.
pub open spec fn record_resolves(st: Escrow, ctx: TakeOffer) -> bool {
    ctx.offer.program == st.program && st.has_offer(ctx.offer.maker, ctx.offer.id)
}

/// The record the derived address resolves to (meaningful only when
/// `record_resolves` holds).
pub open spec fn resolved_record(st: Escrow, ctx: TakeOffer) -> Offer {
    st.offer_at(ctx.offer.maker, ctx.offer.id)
}

/// Whether the supplied maker identity matches the record's stored maker.
pub open spec fn authority_ok(st: Escrow, ctx: TakeOffer) -> bool {
    resolved_record(st, ctx).maker == ctx.maker
}

/// Whether the supplied asset types match the record's stored asset types.
pub open spec fn assets_ok(st: Escrow, ctx: TakeOffer) -> bool {
    resolved_record(st, ctx).token_mint_a == ctx.token_mint_a && resolved_record(
        st,
        ctx,
    ).token_mint_b == ctx.token_mint_b
}

/// Whether the taker's asset-B balance covers the wanted amount.
pub open spec fn taker_can_pay(st: Escrow, ctx: TakeOffer) -> bool {
    st.amount_of(Owner::User { key: ctx.taker }, ctx.token_mint_b) >= resolved_record(
        st,
        ctx,
    ).token_b_wanted_amount
}

/// All the checks a settlement performs, in the order it performs them;
/// settlement succeeds exactly when all of them pass.
pub open spec fn take_checks_pass(st: Escrow, ctx: TakeOffer) -> bool {
    record_resolves(st, ctx) && authority_ok(st, ctx) && assets_ok(st, ctx) && taker_can_pay(
        st,
        ctx,
    )
}

/// How much a successful settlement adds to the balance held at `(o, m)`
/// (negative for the legs that pay out of it): the taker pays the wanted
/// amount of asset B to the maker, and receives the vault's whole balance of
/// asset A. The sum is well-defined for any aliasing of the parties or of
/// the two asset types.
pub open spec fn take_delta(ctx: TakeOffer, rec: Offer, vault_amt: u64, o: Owner, m: u64) -> int {
    let taker_o = Owner::User { key: ctx.taker };
    let maker_o = Owner::User { key: ctx.maker };
    let vo = Owner::Vault { offer: ctx.offer };
    (if o == maker_o && m == ctx.token_mint_b {
        rec.token_b_wanted_amount as int
    } else {
        0
    }) - (if o == taker_o && m == ctx.token_mint_b {
        rec.token_b_wanted_amount as int
    } else {
        0
    }) + (if o == taker_o && m == ctx.token_mint_a {
        vault_amt as int
    } else {
        0
    }) - (if o == vo && m == ctx.token_mint_a {
        vault_amt as int
    } else {
        0
    })
}

/// What a successful settlement leaves behind: the record and the vault
/// storage no longer exist, the taker's asset-A balance grew by the full
/// vault amount, the maker's asset-B balance grew by exactly the wanted
/// amount (both via `take_delta`), and nothing else changed.
pub open spec fn take_ok_post(pre: Escrow, ctx: TakeOffer, post: Escrow) -> bool {
    let rec = resolved_record(pre, ctx);
    let taker_o = Owner::User { key: ctx.taker };
    let maker_o = Owner::User { key: ctx.maker };
    let vo = Owner::Vault { offer: ctx.offer };
    let vault_amt = pre.amount_of(vo, ctx.token_mint_a);
    &&& post.program == pre.program
    &&& !post.has_offer(ctx.offer.maker, ctx.offer.id)
    &&& !post.has_holding(vo, ctx.token_mint_a)
    &&& post.has_holding(taker_o, ctx.token_mint_a)
    &&& post.has_holding(maker_o, ctx.token_mint_b)
    &&& forall|o: Owner, m: u64| #[trigger]
        post.amount_of(o, m) as int == pre.amount_of(o, m) as int + take_delta(
            ctx,
            rec,
            vault_amt,
            o,
            m,
        )
    &&& forall|o: Owner, m: u64| #[trigger]
        post.has_holding(o, m) <==> ((pre.has_holding(o, m) && !(o == vo && m
            == ctx.token_mint_a)) || (o == taker_o && m == ctx.token_mint_a) || (o == maker_o && m
            == ctx.token_mint_b))
    &&& forall|mk: u64, i: u64|
        !(mk == ctx.offer.maker && i == ctx.offer.id) ==> ((#[trigger] post.has_offer(mk, i)
            <==> pre.has_offer(mk, i)) && (post.has_offer(mk, i) ==> post.offer_at(mk, i)
            == pre.offer_at(mk, i)))
}

/// Settling an offer consumes it: a world produced by a successful
/// settlement no longer resolves the offer's derived address. By
/// `take_offer`'s contract, a second settlement attempt against the same
/// address must therefore fail with `RecordNotFound` and change nothing —
/// one offer can never pay out twice.
pub proof fn lemma_no_double_spend(pre: Escrow, ctx: TakeOffer, post: Escrow)
    requires
        take_ok_post(pre, ctx, post),
    ensures
        !record_resolves(post, ctx),
{
}

/// Moves the wanted amount of asset B from the taker's holding account to
/// the maker's, authorized by the taker's signature; the maker's asset-B
/// holding account is created first if absent, paid for by the taker. Fails
/// with `InsufficientFunds`, and changes nothing, exactly when the taker's
/// balance is short.
pub fn send_wanted_tokens_to_maker(escrow: &mut Escrow, ctx: &TakeOffer, rec: &Offer) -> (r:
    Result<(), SwapError>)
    requires
        seq_unique(old(escrow).accounts@),
        old(escrow).has_holding(Owner::User { key: ctx.taker }, ctx.token_mint_b),
        ctx.maker != ctx.taker ==> old(escrow).amount_of(
            Owner::User { key: ctx.maker },
            ctx.token_mint_b,
        ) + rec.token_b_wanted_amount <= u64::MAX,
    ensures
        seq_unique(final(escrow).accounts@),
        final(escrow).program == old(escrow).program,
        final(escrow).offers@ == old(escrow).offers@,
        ({
            let taker_o = Owner::User { key: ctx.taker };
            let maker_o = Owner::User { key: ctx.maker };
            let w = rec.token_b_wanted_amount;
            &&& (r is Ok <==> w <= old(escrow).amount_of(taker_o, ctx.token_mint_b))
            &&& (r is Err ==> *final(escrow) == *old(escrow) && r == Err::<(), SwapError>(
                SwapError::InsufficientFunds,
            ))
            &&& (r is Ok ==> {
                &&& forall|o: Owner, m: u64| #[trigger]
                    final(escrow).has_holding(o, m) <==> (old(escrow).has_holding(o, m) || (o
                        == maker_o && m == ctx.token_mint_b))
                &&& forall|o: Owner, m: u64| #[trigger]
                    final(escrow).amount_of(o, m) as int == old(escrow).amount_of(o, m) as int + (
                    if o == maker_o && m == ctx.token_mint_b {
                        w as int
                    } else {
                        0
                    }) - (if o == taker_o && m == ctx.token_mint_b {
                        w as int
                    } else {
                        0
                    })
            })
        }),
{
    let taker_o = Owner::User { key: ctx.taker };
    let maker_o = Owner::User { key: ctx.maker };
    let w = rec.token_b_wanted_amount;
    let taker_probe = escrow.find_account(taker_o, ctx.token_mint_b);
    match taker_probe {
        None => {
            // Unreachable: the taker's holding account is required to exist.
            Err(SwapError::InsufficientFunds)
        },
        Some(taker_pos) => {
            proof {
                lemma_acct_at(escrow.accounts@, taker_pos as int, taker_o, ctx.token_mint_b);
            }
            if escrow.accounts[taker_pos].amount < w {
                return Err(SwapError::InsufficientFunds);
            }
            escrow.ensure_holding(maker_o, ctx.token_mint_b);
            let ghost mid = *escrow;
            let from_probe = escrow.find_account(taker_o, ctx.token_mint_b);
            let to_probe = escrow.find_account(maker_o, ctx.token_mint_b);
            match (from_probe, to_probe) {
                (Some(from), Some(to)) => {
                    proof {
                        lemma_acct_at(mid.accounts@, from as int, taker_o, ctx.token_mint_b);
                        lemma_acct_at(mid.accounts@, to as int, maker_o, ctx.token_mint_b);
                        assert(mid.amount_of(taker_o, ctx.token_mint_b) == old(escrow).amount_of(
                            taker_o,
                            ctx.token_mint_b,
                        ));
                        assert(mid.amount_of(maker_o, ctx.token_mint_b) == old(escrow).amount_of(
                            maker_o,
                            ctx.token_mint_b,
                        ));
                        if from != to {
                            assert(ctx.maker != ctx.taker);
                        }
                    }
                    let r = escrow.transfer_tokens(
                        from,
                        to,
                        w,
                        ctx.token_mint_b,
                        Authority::Signer { key: ctx.taker },
                    );
                    proof {
                        let src = mid.accounts@[from as int];
                        let dst = mid.accounts@[to as int];
                        assert(r is Ok);
                        assert forall|o: Owner, m: u64| #[trigger]
                            escrow.has_holding(o, m) <==> (old(escrow).has_holding(o, m) || (o
                            == maker_o && m == ctx.token_mint_b)) by {
                            assert(escrow.has_holding(o, m) <==> mid.has_holding(o, m));
                            assert(mid.has_holding(o, m) <==> (old(escrow).has_holding(o, m) || (o
                                == maker_o && m == ctx.token_mint_b)));
                        }
                        assert forall|o: Owner, m: u64| #[trigger]
                            escrow.amount_of(o, m) as int == old(escrow).amount_of(o, m) as int + (
                        if o == maker_o && m == ctx.token_mint_b {
                            w as int
                        } else {
                            0
                        }) - (if o == taker_o && m == ctx.token_mint_b {
                            w as int
                        } else {
                            0
                        }) by {
                            assert(escrow.amount_of(o, m) as int == mid.amount_of(o, m) as int + (
                            if acct_key_is(src, o, m) {
                                -(w as int)
                            } else {
                                0
                            }) + (if acct_key_is(dst, o, m) {
                                w as int
                            } else {
                                0
                            }));
                            assert(mid.amount_of(o, m) == old(escrow).amount_of(o, m));
                            assert(acct_key_is(src, o, m) <==> (o == taker_o && m
                                == ctx.token_mint_b));
                            assert(acct_key_is(dst, o, m) <==> (o == maker_o && m
                                == ctx.token_mint_b));
                        }
                    }
                    r
                },
                _ => {
                    // Unreachable: both accounts were just resolved.
                    proof {
                        assert(false);
                    }
                    Err(SwapError::InsufficientFunds)
                },
            }
        },
    }
}

/// Drains the vault's entire asset-A balance to the taker — authorized by
/// re-deriving the vault's authority from the record's `(maker, id, bump)`,
/// the only place a non-human authority signs a transfer — and then closes
/// the empty vault, reclaiming its storage. The taker's asset-A holding
/// account is created first if absent. Fails with `AuthorityMismatch`, and
/// changes nothing, exactly when the re-derivation does not reproduce the
/// vault's address.
pub fn withdraw_and_close_vault(escrow: &mut Escrow, ctx: &TakeOffer, rec: &Offer) -> (r: Result<
    (),
    SwapError,
>)
    requires
        seq_unique(old(escrow).accounts@),
        old(escrow).has_holding(Owner::Vault { offer: ctx.offer }, ctx.token_mint_a),
        old(escrow).amount_of(Owner::User { key: ctx.taker }, ctx.token_mint_a) + old(
            escrow,
        ).amount_of(Owner::Vault { offer: ctx.offer }, ctx.token_mint_a) <= u64::MAX,
    ensures
        seq_unique(final(escrow).accounts@),
        final(escrow).program == old(escrow).program,
        final(escrow).offers@ == old(escrow).offers@,
        ({
            let taker_o = Owner::User { key: ctx.taker };
            let vo = Owner::Vault { offer: ctx.offer };
            let vault_amt = old(escrow).amount_of(vo, ctx.token_mint_a);
            let auth_ok = authorizes(
                old(escrow).program,
                Authority::Derived { maker: ctx.maker, id: rec.id, bump: rec.bump },
                vo,
            );
            &&& (r is Ok <==> auth_ok)
            &&& (r is Err ==> *final(escrow) == *old(escrow) && r == Err::<(), SwapError>(
                SwapError::AuthorityMismatch,
            ))
            &&& (r is Ok ==> {
                &&& !final(escrow).has_holding(vo, ctx.token_mint_a)
                &&& final(escrow).has_holding(taker_o, ctx.token_mint_a)
                &&& forall|o: Owner, m: u64| #[trigger]
                    final(escrow).has_holding(o, m) <==> ((old(escrow).has_holding(o, m) && !(o
                        == vo && m == ctx.token_mint_a)) || (o == taker_o && m
                        == ctx.token_mint_a))
                &&& forall|o: Owner, m: u64| #[trigger]
                    final(escrow).amount_of(o, m) as int == old(escrow).amount_of(o, m) as int + (
                    if o == taker_o && m == ctx.token_mint_a {
                        vault_amt as int
                    } else {
                        0
                    }) - (if o == vo && m == ctx.token_mint_a {
                        vault_amt as int
                    } else {
                        0
                    })
            })
        }),
{
    let taker_o = Owner::User { key: ctx.taker };
    let vo = Owner::Vault { offer: ctx.offer };
    let auth = Authority::Derived { maker: ctx.maker, id: rec.id, bump: rec.bump };
    if !check_authority(escrow.program, auth, vo) {
        return Err(SwapError::AuthorityMismatch);
    }
    escrow.ensure_holding(taker_o, ctx.token_mint_a);
    let ghost mid = *escrow;
    let vault_probe = escrow.find_account(vo, ctx.token_mint_a);
    let taker_probe = escrow.find_account(taker_o, ctx.token_mint_a);
    match (vault_probe, taker_probe) {
        (Some(vault_pos), Some(taker_pos)) => {
            proof {
                lemma_acct_at(mid.accounts@, vault_pos as int, vo, ctx.token_mint_a);
                lemma_acct_at(mid.accounts@, taker_pos as int, taker_o, ctx.token_mint_a);
                assert(mid.amount_of(vo, ctx.token_mint_a) == old(escrow).amount_of(
                    vo,
                    ctx.token_mint_a,
                ));
                assert(mid.amount_of(taker_o, ctx.token_mint_a) == old(escrow).amount_of(
                    taker_o,
                    ctx.token_mint_a,
                ));
                assert(vault_pos != taker_pos);
            }
            let vault_amt = escrow.accounts[vault_pos].amount;
            let r = escrow.transfer_tokens(vault_pos, taker_pos, vault_amt, ctx.token_mint_a, auth);
            let ghost mid2 = *escrow;
            proof {
                assert(r is Ok);
                assert(mid2.amount_of(vo, ctx.token_mint_a) == 0);
                assert(mid2.has_holding(vo, ctx.token_mint_a));
            }
            let r2 = escrow.close_account(vo, ctx.token_mint_a, auth);
            proof {
                assert(r2 is Ok);
                let src = mid.accounts@[vault_pos as int];
                let dst = mid.accounts@[taker_pos as int];
                let vault_amt_g = old(escrow).amount_of(vo, ctx.token_mint_a);
                assert forall|o: Owner, m: u64| #[trigger]
                    escrow.has_holding(o, m) <==> ((old(escrow).has_holding(o, m) && !(o == vo && m
                    == ctx.token_mint_a)) || (o == taker_o && m == ctx.token_mint_a)) by {
                    assert(escrow.has_holding(o, m) <==> (mid2.has_holding(o, m) && !(o == vo && m
                        == ctx.token_mint_a)));
                    assert(mid2.has_holding(o, m) <==> mid.has_holding(o, m));
                    assert(mid.has_holding(o, m) <==> (old(escrow).has_holding(o, m) || (o
                        == taker_o && m == ctx.token_mint_a)));
                }
                assert forall|o: Owner, m: u64| #[trigger]
                    escrow.amount_of(o, m) as int == old(escrow).amount_of(o, m) as int + (if o
                    == taker_o && m == ctx.token_mint_a {
                    vault_amt_g as int
                } else {
                    0
                }) - (if o == vo && m == ctx.token_mint_a {
                    vault_amt_g as int
                } else {
                    0
                }) by {
                    assert(escrow.amount_of(o, m) == mid2.amount_of(o, m));
                    assert(mid2.amount_of(o, m) as int == mid.amount_of(o, m) as int + (
                    if acct_key_is(src, o, m) {
                        -(vault_amt as int)
                    } else {
                        0
                    }) + (if acct_key_is(dst, o, m) {
                        vault_amt as int
                    } else {
                        0
                    }));
                    assert(mid.amount_of(o, m) == old(escrow).amount_of(o, m));
                    assert(acct_key_is(src, o, m) <==> (o == vo && m == ctx.token_mint_a));
                    assert(acct_key_is(dst, o, m) <==> (o == taker_o && m == ctx.token_mint_a));
                }
            }
            Ok(())
        },
        _ => {
            // Unreachable: the vault is required to exist and the taker's
            // account was just ensured.
            proof {
                assert(false);
            }
            Err(SwapError::AuthorityMismatch)
        },
    }
}

/// Settles an offer resolved at its derived address: the taker pays the
/// maker the wanted amount of asset B, receives the vault's entire asset-A
/// balance, and both the vault and the record are destroyed, all-or-nothing.
/// Fails, in this order of checking and with no state change, with
/// `RecordNotFound` when the address resolves to no live record,
/// `AuthorityMismatch` when the supplied maker is not the record's maker,
/// `AssetMismatch` when a supplied asset type is not the record's, and
/// `InsufficientFunds` when the taker cannot cover the wanted amount.
pub fn take_offer(escrow: &mut Escrow, ctx: TakeOffer) -> (r: Result<(), SwapError>)
    requires
        old(escrow).wf(),
        old(escrow).has_holding(Owner::User { key: ctx.taker }, ctx.token_mint_b),
        take_checks_pass(*old(escrow), ctx) ==> {
            let rec = resolved_record(*old(escrow), ctx);
            let vault_amt = old(escrow).amount_of(
                Owner::Vault { offer: ctx.offer },
                ctx.token_mint_a,
            );
            &&& (ctx.maker != ctx.taker ==> old(escrow).amount_of(
                Owner::User { key: ctx.maker },
                ctx.token_mint_b,
            ) + rec.token_b_wanted_amount <= u64::MAX)
            &&& old(escrow).amount_of(Owner::User { key: ctx.taker }, ctx.token_mint_a)
                + vault_amt <= u64::MAX
        },
    ensures
        final(escrow).program == old(escrow).program,
        r is Ok <==> take_checks_pass(*old(escrow), ctx),
        r == Err::<(), SwapError>(SwapError::RecordNotFound) <==> !record_resolves(
            *old(escrow),
            ctx,
        ),
        r == Err::<(), SwapError>(SwapError::AuthorityMismatch) <==> (record_resolves(
            *old(escrow),
            ctx,
        ) && !authority_ok(*old(escrow), ctx)),
        r == Err::<(), SwapError>(SwapError::AssetMismatch) <==> (record_resolves(
            *old(escrow),
            ctx,
        ) && authority_ok(*old(escrow), ctx) && !assets_ok(*old(escrow), ctx)),
        r == Err::<(), SwapError>(SwapError::InsufficientFunds) <==> (record_resolves(
            *old(escrow),
            ctx,
        ) && authority_ok(*old(escrow), ctx) && assets_ok(*old(escrow), ctx) && !taker_can_pay(
            *old(escrow),
            ctx,
        )),
        r is Err ==> *final(escrow) == *old(escrow),
        r is Ok ==> final(escrow).wf() && take_ok_post(*old(escrow), ctx, *final(escrow)),
{
    let taker_o = Owner::User { key: ctx.taker };
    if ctx.offer.program != escrow.program {
        return Err(SwapError::RecordNotFound);
    }
    let offer_probe = escrow.find_offer(ctx.offer.maker, ctx.offer.id);
    match offer_probe {
        None => Err(SwapError::RecordNotFound),
        Some(offer_pos) => {
            let rec = escrow.offers[offer_pos];
            proof {
                lemma_offer_at(escrow.offers@, offer_pos as int, ctx.offer.maker, ctx.offer.id);
            }
            if rec.maker != ctx.maker {
                return Err(SwapError::AuthorityMismatch);
            }
            // Re-derive the vault authority from the stored completion
            // value: the record must reproduce its own derived address.
            match complete_offer_address(escrow.program, ctx.maker, rec.id, rec.bump) {
                None => {
                    // Unreachable on a well-formed world: the record stores
                    // the completion value its creation settled on.
                    proof {
                        assert(false);
                    }
                    Err(SwapError::AuthorityMismatch)
                },
                Some(derived) => {
                    if derived != ctx.offer {
                        // Unreachable likewise: the derivation is
                        // deterministic over the record's own identity.
                        proof {
                            assert(derived == offer_key(escrow.program, ctx.maker, rec.id));
                            assert(false);
                        }
                        return Err(SwapError::AuthorityMismatch);
                    }
                    if rec.token_mint_a != ctx.token_mint_a || rec.token_mint_b
                        != ctx.token_mint_b {
                        return Err(SwapError::AssetMismatch);
                    }
                    let taker_probe = escrow.find_account(taker_o, ctx.token_mint_b);
                    match taker_probe {
                        None => {
                            // Unreachable: the taker's holding account is
                            // required to exist.
                            proof {
                                assert(false);
                            }
                            Err(SwapError::InsufficientFunds)
                        },
                        Some(taker_pos) => {
                            proof {
                                lemma_acct_at(
                                    escrow.accounts@,
                                    taker_pos as int,
                                    taker_o,
                                    ctx.token_mint_b,
                                );
                            }
                            if escrow.accounts[taker_pos].amount < rec.token_b_wanted_amount {
                                return Err(SwapError::InsufficientFunds);
                            }
                            let ghost pre = *escrow;
                            proof {
                                assert(take_checks_pass(pre, ctx));
                                assert(pre.has_holding(
                                    pre.vault_owner(ctx.offer.maker, ctx.offer.id),
                                    rec.token_mint_a,
                                ));
                                assert(pre.vault_owner(ctx.offer.maker, ctx.offer.id)
                                    == (Owner::Vault { offer: ctx.offer }));
                            }
                            let r1 = send_wanted_tokens_to_maker(escrow, &ctx, &rec);
                            match r1 {
                                Err(e) => {
                                    // Unreachable: the taker's balance was
                                    // checked above.
                                    proof {
                                        assert(false);
                                    }
                                    Err(e)
                                },
                                Ok(()) => {
                                    let ghost mid1 = *escrow;
                                    let r2 = withdraw_and_close_vault(escrow, &ctx, &rec);
                                    match r2 {
                                        Err(e) => {
                                            // Unreachable: the re-derivation
                                            // was checked above.
                                            proof {
                                                assert(authorizes(
                                                    mid1.program,
                                                    Authority::Derived {
                                                        maker: ctx.maker,
                                                        id: rec.id,
                                                        bump: rec.bump,
                                                    },
                                                    Owner::Vault { offer: ctx.offer },
                                                ));
                                                assert(false);
                                            }
                                            Err(e)
                                        },
                                        Ok(()) => {
                                            let ghost mid2 = *escrow;
                                            escrow.remove_offer(ctx.offer.maker, ctx.offer.id);
                                            proof {
                                                lemma_take_offer_wf(
                                                    pre,
                                                    mid1,
                                                    mid2,
                                                    *escrow,
                                                    ctx,
                                                    rec,
                                                );
                                            }
                                            Ok(())
                                        },
                                    }
                                },
                            }
                        },
                    }
                },
            }
        },
    }
}

/// Composes the settlement steps: starting from a well-formed world whose
/// checks all pass, paying the maker, draining and closing the vault, and
/// removing the record yields a well-formed world satisfying the settlement
/// contract.
proof fn lemma_take_offer_wf(
    pre: Escrow,
    mid1: Escrow,
    mid2: Escrow,
    post: Escrow,
    ctx: TakeOffer,
    rec: Offer,
)
    requires
        pre.wf(),
        take_checks_pass(pre, ctx),
        rec == resolved_record(pre, ctx),
        mid1.program == pre.program,
        mid1.offers@ == pre.offers@,
        seq_unique(mid1.accounts@),
        forall|o: Owner, m: u64| #[trigger]
            mid1.has_holding(o, m) <==> (pre.has_holding(o, m) || (o == (Owner::User {
                key: ctx.maker,
            }) && m == ctx.token_mint_b)),
        forall|o: Owner, m: u64| #[trigger]
            mid1.amount_of(o, m) as int == pre.amount_of(o, m) as int + (if o == (Owner::User {
                key: ctx.maker,
            }) && m == ctx.token_mint_b {
                rec.token_b_wanted_amount as int
            } else {
                0
            }) - (if o == (Owner::User { key: ctx.taker }) && m == ctx.token_mint_b {
                rec.token_b_wanted_amount as int
            } else {
                0
            }),
        mid2.program == mid1.program,
        mid2.offers@ == mid1.offers@,
        seq_unique(mid2.accounts@),
        forall|o: Owner, m: u64| #[trigger]
            mid2.has_holding(o, m) <==> ((mid1.has_holding(o, m) && !(o == (Owner::Vault {
                offer: ctx.offer,
            }) && m == ctx.token_mint_a)) || (o == (Owner::User { key: ctx.taker }) && m
                == ctx.token_mint_a)),
        forall|o: Owner, m: u64| #[trigger]
            mid2.amount_of(o, m) as int == mid1.amount_of(o, m) as int + (if o == (Owner::User {
                key: ctx.taker,
            }) && m == ctx.token_mint_a {
                mid1.amount_of(Owner::Vault { offer: ctx.offer }, ctx.token_mint_a) as int
            } else {
                0
            }) - (if o == (Owner::Vault { offer: ctx.offer }) && m == ctx.token_mint_a {
                mid1.amount_of(Owner::Vault { offer: ctx.offer }, ctx.token_mint_a) as int
            } else {
                0
            }),
        post.program == mid2.program,
        post.accounts@ == mid2.accounts@,
        seq_offers_unique(post.offers@),
        forall|mk: u64, i: u64| #[trigger]
            post.has_offer(mk, i) <==> (mid2.has_offer(mk, i) && !(mk == ctx.offer.maker && i
                == ctx.offer.id)),
        forall|mk: u64, i: u64| #[trigger]
            post.has_offer(mk, i) ==> post.offer_at(mk, i) == mid2.offer_at(mk, i),
    ensures
        post.wf(),
        take_ok_post(pre, ctx, post),
{
    let taker_o = Owner::User { key: ctx.taker };
    let maker_o = Owner::User { key: ctx.maker };
    let vo = Owner::Vault { offer: ctx.offer };
    let vault_amt = pre.amount_of(vo, ctx.token_mint_a);
    assert(ctx.offer.program == pre.program);
    // The vault key is not a user key, so the asset-B leg left it alone.
    assert(mid1.amount_of(vo, ctx.token_mint_a) == vault_amt);
    // Well-formedness of the settled world.
    assert forall|mk: u64, i: u64| #[trigger]
        post.has_offer(mk, i) implies post.offer_at(mk, i).bump == crate::addr::BUMP_SEARCH_TOP
        && post.has_holding(post.vault_owner(mk, i), post.offer_at(mk, i).token_mint_a) by {
        assert(mid2.has_offer(mk, i));
        assert(!(mk == ctx.offer.maker && i == ctx.offer.id));
        assert(pre.has_offer(mk, i));
        assert(post.offer_at(mk, i) == pre.offer_at(mk, i));
        assert(pre.has_holding(pre.vault_owner(mk, i), pre.offer_at(mk, i).token_mint_a));
        let vk = offer_key(pre.program, mk, i);
        assert(pre.vault_owner(mk, i) == (Owner::Vault { offer: vk }));
        assert(vk != ctx.offer);
        assert(mid1.has_holding(Owner::Vault { offer: vk }, pre.offer_at(mk, i).token_mint_a));
        assert(mid2.has_holding(Owner::Vault { offer: vk }, pre.offer_at(mk, i).token_mint_a));
        assert(post.vault_owner(mk, i) == pre.vault_owner(mk, i));
        assert(post.has_holding(post.vault_owner(mk, i), post.offer_at(mk, i).token_mint_a));
    }
    assert forall|k: OfferKey, m: u64| #[trigger]
        post.has_holding(Owner::Vault { offer: k }, m) implies k.program == post.program
        && post.has_offer(k.maker, k.id) && m == post.offer_at(k.maker, k.id).token_mint_a by {
        assert(mid2.has_holding(Owner::Vault { offer: k }, m));
        assert(mid1.has_holding(Owner::Vault { offer: k }, m) && !((Owner::Vault { offer: k })
            == vo && m == ctx.token_mint_a));
        assert(pre.has_holding(Owner::Vault { offer: k }, m));
        assert(pre.has_offer(k.maker, k.id));
        assert(m == pre.offer_at(k.maker, k.id).token_mint_a);
        if k.maker == ctx.offer.maker && k.id == ctx.offer.id {
            assert(k == ctx.offer);
            assert(m == rec.token_mint_a);
            assert(rec.token_mint_a == ctx.token_mint_a);
            assert(false);
        }
        assert(post.has_offer(k.maker, k.id));
        assert(post.offer_at(k.maker, k.id) == pre.offer_at(k.maker, k.id));
    }
    // The settlement contract.
    assert(!post.has_offer(ctx.offer.maker, ctx.offer.id));
    assert forall|o: Owner, m: u64| #[trigger]
        post.has_holding(o, m) <==> ((pre.has_holding(o, m) && !(o == vo && m
        == ctx.token_mint_a)) || (o == taker_o && m == ctx.token_mint_a) || (o == maker_o && m
        == ctx.token_mint_b)) by {
        assert(post.has_holding(o, m) <==> mid2.has_holding(o, m));
        assert(mid2.has_holding(o, m) <==> ((mid1.has_holding(o, m) && !(o == vo && m
            == ctx.token_mint_a)) || (o == taker_o && m == ctx.token_mint_a)));
        assert(mid1.has_holding(o, m) <==> (pre.has_holding(o, m) || (o == maker_o && m
            == ctx.token_mint_b)));
    }
    assert forall|o: Owner, m: u64| #[trigger]
        post.amount_of(o, m) as int == pre.amount_of(o, m) as int + take_delta(
        ctx,
        rec,
        vault_amt,
        o,
        m,
    ) by {
        assert(post.amount_of(o, m) == mid2.amount_of(o, m));
        assert(mid2.amount_of(o, m) as int == mid1.amount_of(o, m) as int + (if o == taker_o && m
            == ctx.token_mint_a {
            mid1.amount_of(vo, ctx.token_mint_a) as int
        } else {
            0
        }) - (if o == vo && m == ctx.token_mint_a {
            mid1.amount_of(vo, ctx.token_mint_a) as int
        } else {
            0
        }));
        assert(mid1.amount_of(o, m) as int == pre.amount_of(o, m) as int + (if o == maker_o && m
            == ctx.token_mint_b {
            rec.token_b_wanted_amount as int
        } else {
            0
        }) - (if o == taker_o && m == ctx.token_mint_b {
            rec.token_b_wanted_amount as int
        } else {
            0
        }));
    }
    assert(!post.has_holding(vo, ctx.token_mint_a));
    assert(post.has_holding(taker_o, ctx.token_mint_a));
    assert(post.has_holding(maker_o, ctx.token_mint_b));
}

} // verus!
