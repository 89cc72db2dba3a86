//! The asset-holding ledger and the checked transfer primitive.
//!
//! On chain, balances live in per-owner, per-asset holding
//! accounts owned by the chain runtime; this model keeps them in an explicit
//! [`Escrow`] value. A holding account is identified by its owner and asset
//! type: the owner is either a human identity or the derived authority of an
//! offer's vault, so a vault can only be drained by presenting the offer's
//! derivation, never by a signature.

use vstd::prelude::*;

use crate::addr::BUMP_SEARCH_TOP;
use crate::addr::OfferKey;
use crate::addr::offer_address_with_bump;
use crate::addr::offer_key;
use crate::error::SwapError;
use crate::state::Offer;

verus! {

/// Who controls a holding account.
#[derive(Clone, Copy, PartialEq, Eq, Structural, Debug)]
pub enum Owner {
    /// A human identity: outbound transfers need this identity's signature.
    User { key: u64 },
    /// The derived authority of an offer's vault: outbound transfers need
    /// the derivation `(maker, id, bump)` that reproduces this address.
    Vault { offer: OfferKey },
}

/// A per-owner, per-asset balance record: the source or destination of a
/// transfer.
#[derive(Clone, Copy, PartialEq, Eq, Structural, Debug)]
pub struct TokenAccount {
    /// Who may authorize outbound transfers.
    pub owner: Owner,
    /// The asset type this account holds.
    pub mint: u64,
    /// The balance.
    pub amount: u64,
}

/// The proof of authority presented with a transfer.
#[derive(Clone, Copy, PartialEq, Eq, Structural, Debug)]
pub enum Authority {
    /// A user signature: authorizes accounts owned by that user.
    Signer { key: u64 },
    /// A program-seeded derivation: authorizes the vault whose address the
    /// derivation reproduces.
    Derived { maker: u64, id: u64, bump: u8 },
}

/// Whether a presented authority controls an account owner, under a given
/// program identity.
pub open spec fn authorizes(program: u64, auth: Authority, owner: Owner) -> bool {
    match auth {
        Authority::Signer { key } => owner == (Owner::User { key }),
        Authority::Derived { maker, id, bump } => match owner {
            Owner::Vault { offer } => offer_address_with_bump(program, maker, id, bump) == Some(
                offer,
            ),
            Owner::User { .. } => false,
        },
    }
}

/// Whether account `a` is the holding account of `(o, m)`.
pub open spec fn acct_key_is(a: TokenAccount, o: Owner, m: u64) -> bool {
    a.owner == o && a.mint == m
}

/// Whether a holding account for `(o, m)` exists in `s`.
pub open spec fn seq_has(s: Seq<TokenAccount>, o: Owner, m: u64) -> bool {
    exists|i: int| 0 <= i < s.len() && acct_key_is(#[trigger] s[i], o, m)
}

/// The index of the holding account of `(o, m)` in `s` (meaningful only
/// when `seq_has(s, o, m)` holds).
pub open spec fn seq_idx(s: Seq<TokenAccount>, o: Owner, m: u64) -> int {
    choose|i: int| 0 <= i < s.len() && acct_key_is(#[trigger] s[i], o, m)
}

/// The balance held for `(o, m)` in `s`; an absent holding account holds
/// nothing.
pub open spec fn seq_amount(s: Seq<TokenAccount>, o: Owner, m: u64) -> u64 {
    if seq_has(s, o, m) {
        s[seq_idx(s, o, m)].amount
    } else {
        0
    }
}

/// No two accounts in `s` share an `(owner, mint)` key.
pub open spec fn seq_unique(s: Seq<TokenAccount>) -> bool {
    forall|i: int, j: int|
        #![trigger s[i], s[j]]
        0 <= i < s.len() && 0 <= j < s.len() && i != j ==> !(s[i].owner == s[j].owner && s[i].mint
            == s[j].mint)
}

/// Whether record `rec` is the offer record of `(maker, id)`.
pub open spec fn offer_key_is(rec: Offer, maker: u64, id: u64) -> bool {
    rec.maker == maker && rec.id == id
}

/// Whether a live offer record for `(maker, id)` exists in `s`.
pub open spec fn seq_has_offer(s: Seq<Offer>, maker: u64, id: u64) -> bool {
    exists|i: int| 0 <= i < s.len() && offer_key_is(#[trigger] s[i], maker, id)
}

/// The index of the offer record of `(maker, id)` in `s` (meaningful only
/// when `seq_has_offer(s, maker, id)` holds).
pub open spec fn seq_offer_idx(s: Seq<Offer>, maker: u64, id: u64) -> int {
    choose|i: int| 0 <= i < s.len() && offer_key_is(#[trigger] s[i], maker, id)
}

/// The offer record of `(maker, id)` in `s` (meaningful only when
/// `seq_has_offer(s, maker, id)` holds).
pub open spec fn seq_offer(s: Seq<Offer>, maker: u64, id: u64) -> Offer {
    s[seq_offer_idx(s, maker, id)]
}

/// No two records in `s` share a `(maker, id)` pair.
pub open spec fn seq_offers_unique(s: Seq<Offer>) -> bool {
    forall|i: int, j: int|
        #![trigger s[i], s[j]]
        0 <= i < s.len() && 0 <= j < s.len() && i != j ==> !(s[i].maker == s[j].maker && s[i].id
            == s[j].id)
}

/// The escrow's world: the fixed program identity every derivation is bound
/// to, all asset-holding accounts (user accounts and offer vaults alike),
/// and all live offer records.
pub struct Escrow {
    /// The fixed program identity (a configuration constant, not state).
    pub program: u64,
    /// Every holding account, at most one per `(owner, mint)` key.
    pub accounts: Vec<TokenAccount>,
    /// Every live offer record, at most one per `(maker, id)` pair.
    pub offers: Vec<Offer>,
}

impl Escrow {
    /// Whether a holding account for `(o, m)` exists.
    pub open spec fn has_holding(self, o: Owner, m: u64) -> bool {
        seq_has(self.accounts@, o, m)
    }

    /// The balance held for `(o, m)`; an absent account holds nothing.
    pub open spec fn amount_of(self, o: Owner, m: u64) -> u64 {
        seq_amount(self.accounts@, o, m)
    }

    /// Whether a live offer record for `(maker, id)` exists.
    pub open spec fn has_offer(self, maker: u64, id: u64) -> bool {
        seq_has_offer(self.offers@, maker, id)
    }

    /// The live offer record for `(maker, id)` (meaningful only when
    /// `has_offer(maker, id)` holds).
    pub open spec fn offer_at(self, maker: u64, id: u64) -> Offer {
        seq_offer(self.offers@, maker, id)
    }

    /// The derived authority controlling the vault of offer `(maker, id)`.
    pub open spec fn vault_owner(self, maker: u64, id: u64) -> Owner {
        Owner::Vault { offer: offer_key(self.program, maker, id) }
    }

    /// Well-formedness: holding accounts are unique per `(owner, mint)` key,
    /// offer records are unique per `(maker, id)` pair, every live offer
    /// stores the completion value its creation settled on and owns a vault
    /// for its offered asset, and every vault-owned account belongs to a
    /// live offer of this program and holds that offer's offered asset.
    pub open spec fn wf(self) -> bool {
        &&& seq_unique(self.accounts@)
        &&& seq_offers_unique(self.offers@)
        &&& forall|mk: u64, id: u64| #[trigger]
            self.has_offer(mk, id) ==> self.offer_at(mk, id).bump == BUMP_SEARCH_TOP
                && self.has_holding(self.vault_owner(mk, id), self.offer_at(mk, id).token_mint_a)
        &&& forall|k: OfferKey, m: u64| #[trigger]
            self.has_holding(Owner::Vault { offer: k }, m) ==> k.program == self.program
                && self.has_offer(k.maker, k.id) && m == self.offer_at(
                k.maker,
                k.id,
            ).token_mint_a
    }

    /// A fresh world with no holding accounts and no offers, bound to the
    /// given program identity.
    pub fn new(program: u64) -> (r: Escrow)
        ensures
            r.wf(),
            r.program == program,
            forall|o: Owner, m: u64| !(#[trigger] r.has_holding(o, m)),
            forall|o: Owner, m: u64| #[trigger] r.amount_of(o, m) == 0,
            forall|mk: u64, id: u64| !(#[trigger] r.has_offer(mk, id)),
    {
        Escrow { program, accounts: Vec::new(), offers: Vec::new() }
    }

    /// Resolves the holding account of `(o, m)` to its position, or reports
    /// that none exists.
    pub fn find_account(&self, o: Owner, m: u64) -> (r: Option<usize>)
        ensures
            match r {
                Some(j) => j < self.accounts@.len() && acct_key_is(self.accounts@[j as int], o, m)
                    && self.has_holding(o, m),
                None => !self.has_holding(o, m),
            },
    {
        let mut i: usize = 0;
        while i < self.accounts.len()
            invariant
                i <= self.accounts@.len(),
                forall|k: int| 0 <= k < i ==> !acct_key_is(#[trigger] self.accounts@[k], o, m),
            decreases self.accounts@.len() - i,
        {
            let a = self.accounts[i];
            if a.owner == o && a.mint == m {
                return Some(i);
            }
            i = i + 1;
        }
        None
    }

    /// Resolves the live offer record of `(maker, id)` to its position, or
    /// reports that none exists.
    pub fn find_offer(&self, maker: u64, id: u64) -> (r: Option<usize>)
        ensures
            match r {
                Some(j) => j < self.offers@.len() && offer_key_is(self.offers@[j as int], maker, id)
                    && self.has_offer(maker, id),
                None => !self.has_offer(maker, id),
            },
    {
        let mut i: usize = 0;
        while i < self.offers.len()
            invariant
                i <= self.offers@.len(),
                forall|k: int| 0 <= k < i ==> !offer_key_is(#[trigger] self.offers@[k], maker, id),
            decreases self.offers@.len() - i,
        {
            let rec = self.offers[i];
            if rec.maker == maker && rec.id == id {
                return Some(i);
            }
            i = i + 1;
        }
        None
    }

    /// The idempotent "ensure a holding account for `(o, m)` exists"
    /// primitive: creates an empty account when none exists, and otherwise
    /// changes nothing. No balance changes either way.
    pub(crate) fn ensure_holding(&mut self, o: Owner, m: u64)
        requires
            seq_unique(old(self).accounts@),
        ensures
            seq_unique(final(self).accounts@),
            final(self).program == old(self).program,
            final(self).offers@ == old(self).offers@,
            forall|o2: Owner, m2: u64| #[trigger]
                final(self).has_holding(o2, m2) <==> (old(self).has_holding(o2, m2) || (o2 == o
                    && m2 == m)),
            forall|o2: Owner, m2: u64| #[trigger]
                final(self).amount_of(o2, m2) == old(self).amount_of(o2, m2),
    {
        match self.find_account(o, m) {
            Some(_) => {},
            None => {
                let a = TokenAccount { owner: o, mint: m, amount: 0 };
                proof {
                    lemma_accounts_push(self.accounts@, a);
                }
                self.accounts.push(a);
            },
        }
    }

    /// The transfer primitive: moves `amount` of the asset `mint` from the
    /// holding account at position `from` to the one at position `to`,
    /// authorized by `auth`. The asset type of both accounts and the named
    /// asset must match exactly, the authority must control the source
    /// owner, and the source balance must cover the amount; otherwise the
    /// transfer fails atomically with no state change. A transfer between an
    /// account and itself is a checked no-op.
    pub fn transfer_tokens(
        &mut self,
        from: usize,
        to: usize,
        amount: u64,
        mint: u64,
        auth: Authority,
    ) -> (r: Result<(), SwapError>)
        requires
            seq_unique(old(self).accounts@),
            from < old(self).accounts@.len(),
            to < old(self).accounts@.len(),
            from != to ==> old(self).accounts@[to as int].amount + amount <= u64::MAX,
        ensures
            seq_unique(final(self).accounts@),
            final(self).program == old(self).program,
            final(self).offers@ == old(self).offers@,
            ({
                let src = old(self).accounts@[from as int];
                let dst = old(self).accounts@[to as int];
                &&& (r is Ok <==> src.mint == mint && dst.mint == mint && authorizes(
                    old(self).program,
                    auth,
                    src.owner,
                ) && amount <= src.amount)
                &&& (r == Err::<(), SwapError>(SwapError::AssetMismatch) <==> !(src.mint == mint
                    && dst.mint == mint))
                &&& (r == Err::<(), SwapError>(SwapError::AuthorityMismatch) <==> src.mint == mint
                    && dst.mint == mint && !authorizes(old(self).program, auth, src.owner))
                &&& (r == Err::<(), SwapError>(SwapError::InsufficientFunds) <==> src.mint == mint
                    && dst.mint == mint && authorizes(old(self).program, auth, src.owner)
                    && amount > src.amount)
                &&& (r is Err ==> *final(self) == *old(self))
                &&& (r is Ok ==> (forall|o: Owner, m: u64| #[trigger]
                    final(self).has_holding(o, m) <==> old(self).has_holding(o, m)) && (forall|
                    o: Owner,
                    m: u64,
                | #[trigger]
                    final(self).amount_of(o, m) as int == old(self).amount_of(o, m) as int + (
                    if acct_key_is(src, o, m) {
                        -(amount as int)
                    } else {
                        0
                    }) + (if acct_key_is(dst, o, m) {
                        amount as int
                    } else {
                        0
                    })))
            }),
    {
        let src = self.accounts[from];
        let dst = self.accounts[to];
        if src.mint != mint || dst.mint != mint {
            return Err(SwapError::AssetMismatch);
        }
        if !check_authority(self.program, auth, src.owner) {
            return Err(SwapError::AuthorityMismatch);
        }
        if amount > src.amount {
            return Err(SwapError::InsufficientFunds);
        }
        if from != to {
            let new_src = TokenAccount { owner: src.owner, mint: src.mint, amount: src.amount
                - amount };
            proof {
                lemma_accounts_update(self.accounts@, from as int, new_src);
            }
            self.accounts[from] = new_src;
            let dst2 = self.accounts[to];
            let new_dst = TokenAccount { owner: dst2.owner, mint: dst2.mint, amount: dst2.amount
                + amount };
            proof {
                lemma_accounts_update(self.accounts@, to as int, new_dst);
                assert(!(src.owner == dst.owner && src.mint == dst.mint));
            }
            self.accounts[to] = new_dst;
        }
        Ok(())
    }

    /// The vault-closing variant of the transfer primitive: reclaims the
    /// storage of the holding account of `(o, m)` once its balance is zero.
    /// Only the account's controlling authority may close it.
    pub fn close_account(&mut self, o: Owner, m: u64, auth: Authority) -> (r: Result<
        (),
        SwapError,
    >)
        requires
            seq_unique(old(self).accounts@),
            old(self).has_holding(o, m),
            old(self).amount_of(o, m) == 0,
        ensures
            seq_unique(final(self).accounts@),
            final(self).program == old(self).program,
            final(self).offers@ == old(self).offers@,
            r is Ok <==> authorizes(old(self).program, auth, o),
            r == Err::<(), SwapError>(SwapError::AuthorityMismatch) <==> !authorizes(
                old(self).program,
                auth,
                o,
            ),
            r is Err ==> *final(self) == *old(self),
            r is Ok ==> (forall|o2: Owner, m2: u64| #[trigger]
                final(self).has_holding(o2, m2) <==> (old(self).has_holding(o2, m2) && !(o2 == o
                    && m2 == m))) && (forall|o2: Owner, m2: u64| #[trigger]
                final(self).amount_of(o2, m2) == old(self).amount_of(o2, m2)),
    {
        match self.find_account(o, m) {
            None => {
                // Unreachable: the account is required to exist.
                Err(SwapError::AuthorityMismatch)
            },
            Some(j) => {
                let acct = self.accounts[j];
                if !check_authority(self.program, auth, acct.owner) {
                    return Err(SwapError::AuthorityMismatch);
                }
                proof {
                    lemma_acct_at(self.accounts@, j as int, o, m);
                    let t = self.accounts@.update(j as int, self.accounts@.last()).drop_last();
                    lemma_accounts_swap_remove(self.accounts@, j as int, t);
                }
                self.accounts.swap_remove(j);
                proof {
                    assert forall|o2: Owner, m2: u64| #[trigger]
                        self.amount_of(o2, m2) == old(self).amount_of(o2, m2) by {
                        if o2 == o && m2 == m {
                            assert(!self.has_holding(o2, m2));
                        }
                    }
                }
                Ok(())
            },
        }
    }

    /// Removes the live offer record of `(maker, id)`, reclaiming its
    /// storage. Holding accounts are untouched.
    pub(crate) fn remove_offer(&mut self, maker: u64, id: u64)
        requires
            seq_offers_unique(old(self).offers@),
            old(self).has_offer(maker, id),
        ensures
            seq_offers_unique(final(self).offers@),
            final(self).program == old(self).program,
            final(self).accounts@ == old(self).accounts@,
            forall|mk: u64, i: u64| #[trigger]
                final(self).has_offer(mk, i) <==> (old(self).has_offer(mk, i) && !(mk == maker && i
                    == id)),
            forall|mk: u64, i: u64| #[trigger]
                final(self).has_offer(mk, i) ==> final(self).offer_at(mk, i) == old(self).offer_at(
                    mk,
                    i,
                ),
    {
        match self.find_offer(maker, id) {
            None => {
                // Unreachable: the record is required to exist.
            },
            Some(j) => {
                proof {
                    let t = self.offers@.update(j as int, self.offers@.last()).drop_last();
                    lemma_offers_swap_remove(self.offers@, j as int, t);
                }
                self.offers.swap_remove(j);
            },
        }
    }

    /// The harness's funding primitive: credits `amount` of asset `mint` to
    /// the identity `owner_key`, creating the holding account when absent.
    /// Only user accounts can be funded this way; vaults are funded solely
    /// through offer creation.
    pub fn mint_to(&mut self, owner_key: u64, mint: u64, amount: u64)
        requires
            old(self).wf(),
            old(self).amount_of(Owner::User { key: owner_key }, mint) + amount <= u64::MAX,
        ensures
            final(self).wf(),
            final(self).program == old(self).program,
            final(self).offers@ == old(self).offers@,
            forall|o2: Owner, m2: u64| #[trigger]
                final(self).has_holding(o2, m2) <==> (old(self).has_holding(o2, m2) || (o2
                    == (Owner::User { key: owner_key }) && m2 == mint)),
            forall|o2: Owner, m2: u64| #[trigger]
                final(self).amount_of(o2, m2) as int == old(self).amount_of(o2, m2) as int + (
                if o2 == (Owner::User { key: owner_key }) && m2 == mint {
                    amount as int
                } else {
                    0
                }),
    {
        let o = Owner::User { key: owner_key };
        self.ensure_holding(o, mint);
        let ghost mid = *self;
        match self.find_account(o, mint) {
            None => {
                // Unreachable: the account was just ensured.
            },
            Some(j) => {
                let acct = self.accounts[j];
                proof {
                    lemma_acct_at(self.accounts@, j as int, o, mint);
                    assert(mid.amount_of(o, mint) == old(self).amount_of(o, mint));
                }
                let new_acct = TokenAccount { owner: acct.owner, mint: acct.mint, amount:
                    acct.amount + amount };
                proof {
                    lemma_accounts_update(self.accounts@, j as int, new_acct);
                }
                self.accounts[j] = new_acct;
                proof {
                    assert(self.accounts@ == mid.accounts@.update(j as int, new_acct));
                    assert forall|o2: Owner, m2: u64| #[trigger]
                        self.has_holding(o2, m2) <==> (old(self).has_holding(o2, m2) || (o2 == o
                        && m2 == mint)) by {
                        assert(seq_has(mid.accounts@.update(j as int, new_acct), o2, m2) <==> seq_has(
                            mid.accounts@,
                            o2,
                            m2,
                        ));
                        assert(mid.has_holding(o2, m2) <==> (old(self).has_holding(o2, m2) || (o2
                            == o && m2 == mint)));
                    }
                    assert forall|o2: Owner, m2: u64| #[trigger]
                        self.amount_of(o2, m2) as int == old(self).amount_of(o2, m2) as int + (
                        if o2 == o && m2 == mint {
                            amount as int
                        } else {
                            0
                        }) by {
                        assert(seq_amount(mid.accounts@.update(j as int, new_acct), o2, m2) == (
                        if acct_key_is(new_acct, o2, m2) {
                            new_acct.amount
                        } else {
                            seq_amount(mid.accounts@, o2, m2)
                        }));
                        assert(mid.amount_of(o2, m2) == old(self).amount_of(o2, m2));
                    }
                    assert forall|k: OfferKey, m2: u64| #[trigger]
                        self.has_holding(Owner::Vault { offer: k }, m2) <==> old(self).has_holding(
                        Owner::Vault { offer: k },
                        m2,
                    ) by {
                        assert(self.has_holding(Owner::Vault { offer: k }, m2) <==> (old(
                            self,
                        ).has_holding(Owner::Vault { offer: k }, m2) || (Owner::Vault { offer: k }
                            == o && m2 == mint)));
                    }
                    lemma_wf_accounts_frame(*old(self), *self);
                }
            },
        }
    }
    /// The balance held for `(o, m)`: zero when no holding account exists.
    pub fn holding_amount(&self, o: Owner, m: u64) -> (r: u64)
        requires
            seq_unique(self.accounts@),
        ensures
            r == self.amount_of(o, m),
    {
        match self.find_account(o, m) {
            None => 0,
            Some(j) => {
                proof {
                    lemma_acct_at(self.accounts@, j as int, o, m);
                }
                self.accounts[j].amount
            },
        }
    }

    /// Whether a holding account for `(o, m)` exists.
    pub fn holding_exists(&self, o: Owner, m: u64) -> (r: bool)
        ensures
            r == self.has_holding(o, m),
    {
        match self.find_account(o, m) {
            None => false,
            Some(_) => true,
        }
    }

    /// The live offer record of `(maker, id)`, if any.
    pub fn offer_record(&self, maker: u64, id: u64) -> (r: Option<Offer>)
        requires
            seq_offers_unique(self.offers@),
        ensures
            match r {
                Some(rec) => self.has_offer(maker, id) && rec == self.offer_at(maker, id),
                None => !self.has_offer(maker, id),
            },
    {
        match self.find_offer(maker, id) {
            None => None,
            Some(j) => {
                proof {
                    lemma_offer_at(self.offers@, j as int, maker, id);
                }
                Some(self.offers[j])
            },
        }
    }
}

/// A vault's custodial authority is never a human identity: no user
/// signature, whoever signs, authorizes an account owned by a derived
/// vault authority.
pub proof fn lemma_vault_not_user_controlled(program: u64, k: OfferKey, key: u64)
    ensures
        !authorizes(program, Authority::Signer { key }, Owner::Vault { offer: k }),
{
}

/// The one capability that controls a vault: a presented derivation
/// authorizes the vault exactly when it reproduces the vault's own derived
/// address under the program it was bound to.
pub proof fn lemma_vault_authority_unique(
    program: u64,
    k: OfferKey,
    maker: u64,
    id: u64,
    bump: u8,
)
    ensures
        authorizes(program, Authority::Derived { maker, id, bump }, Owner::Vault { offer: k })
            <==> (k == offer_key(program, maker, id) && crate::addr::bump_completes(bump)),
{
}

/// Well-formedness survives any change to holding accounts that keeps keys
/// unique and leaves vault-owned holdings untouched, as long as the offers
/// and the program identity stay as they were.
pub proof fn lemma_wf_accounts_frame(pre: Escrow, post: Escrow)
    requires
        pre.wf(),
        seq_unique(post.accounts@),
        post.program == pre.program,
        post.offers@ == pre.offers@,
        forall|k: OfferKey, m: u64| #[trigger]
            post.has_holding(Owner::Vault { offer: k }, m) <==> pre.has_holding(
                Owner::Vault { offer: k },
                m,
            ),
    ensures
        post.wf(),
{
    assert forall|mk: u64, id: u64| #[trigger]
        post.has_offer(mk, id) implies post.offer_at(mk, id).bump == BUMP_SEARCH_TOP
        && post.has_holding(post.vault_owner(mk, id), post.offer_at(mk, id).token_mint_a) by {
        assert(pre.has_offer(mk, id));
        assert(post.offer_at(mk, id) == pre.offer_at(mk, id));
        assert(pre.has_holding(pre.vault_owner(mk, id), pre.offer_at(mk, id).token_mint_a));
        assert(pre.vault_owner(mk, id) == (Owner::Vault {
            offer: offer_key(pre.program, mk, id),
        }));
    }
    assert forall|k: OfferKey, m: u64| #[trigger]
        post.has_holding(Owner::Vault { offer: k }, m) implies k.program == post.program
        && post.has_offer(k.maker, k.id) && m == post.offer_at(k.maker, k.id).token_mint_a by {
        assert(pre.has_holding(Owner::Vault { offer: k }, m));
        assert(pre.has_offer(k.maker, k.id));
        assert(post.offer_at(k.maker, k.id) == pre.offer_at(k.maker, k.id));
    }
}

/// Whether `auth` controls `owner` under `program`, decided exactly as
/// [`authorizes`] states it.
pub fn check_authority(program: u64, auth: Authority, owner: Owner) -> (r: bool)
    ensures
        r == authorizes(program, auth, owner),
{
    match auth {
        Authority::Signer { key } => owner == (Owner::User { key }),
        Authority::Derived { maker, id, bump } => match owner {
            Owner::Vault { offer } => match crate::addr::complete_offer_address(
                program,
                maker,
                id,
                bump,
            ) {
                Some(k) => k == offer,
                None => false,
            },
            Owner::User { .. } => false,
        },
    }
}

/// Pins the lookup functions to a concrete position: if accounts are unique
/// on their keys and position `i` holds the key `(o, m)`, then the lookup
/// resolves to exactly that position.
pub proof fn lemma_acct_at(s: Seq<TokenAccount>, i: int, o: Owner, m: u64)
    requires
        seq_unique(s),
        0 <= i < s.len(),
        acct_key_is(s[i], o, m),
    ensures
        seq_has(s, o, m),
        seq_idx(s, o, m) == i,
        seq_amount(s, o, m) == s[i].amount,
{
    assert(seq_has(s, o, m));
    let j = seq_idx(s, o, m);
    assert(0 <= j < s.len() && acct_key_is(s[j], o, m));
    if j != i {
        assert(s[i].owner == s[j].owner && s[i].mint == s[j].mint);
        assert(false);
    }
}

/// Pins the record lookup to a concrete position, as `lemma_acct_at` does
/// for holding accounts.
pub proof fn lemma_offer_at(s: Seq<Offer>, i: int, maker: u64, id: u64)
    requires
        seq_offers_unique(s),
        0 <= i < s.len(),
        offer_key_is(s[i], maker, id),
    ensures
        seq_has_offer(s, maker, id),
        seq_offer_idx(s, maker, id) == i,
        seq_offer(s, maker, id) == s[i],
{
    assert(seq_has_offer(s, maker, id));
    let j = seq_offer_idx(s, maker, id);
    assert(0 <= j < s.len() && offer_key_is(s[j], maker, id));
    if j != i {
        assert(s[i].maker == s[j].maker && s[i].id == s[j].id);
        assert(false);
    }
}

/// Replacing the account at position `i` by one with the same key changes
/// the balance read at that key and nothing else.
pub proof fn lemma_accounts_update(s: Seq<TokenAccount>, i: int, a: TokenAccount)
    requires
        seq_unique(s),
        0 <= i < s.len(),
        a.owner == s[i].owner,
        a.mint == s[i].mint,
    ensures
        seq_unique(s.update(i, a)),
        forall|o: Owner, m: u64| #[trigger]
            seq_has(s.update(i, a), o, m) <==> seq_has(s, o, m),
        forall|o: Owner, m: u64| #[trigger]
            seq_amount(s.update(i, a), o, m) == if acct_key_is(a, o, m) {
                a.amount
            } else {
                seq_amount(s, o, m)
            },
{
    let t = s.update(i, a);
    assert forall|o: Owner, m: u64| #[trigger] seq_has(t, o, m) <==> seq_has(s, o, m) by {
        if seq_has(s, o, m) {
            let j = seq_idx(s, o, m);
            if j == i {
                assert(acct_key_is(t[i], o, m));
            } else {
                assert(acct_key_is(t[j], o, m));
            }
        }
        if seq_has(t, o, m) {
            let j = choose|j: int| 0 <= j < t.len() && acct_key_is(#[trigger] t[j], o, m);
            if j == i {
                assert(acct_key_is(s[i], o, m));
            } else {
                assert(acct_key_is(s[j], o, m));
            }
        }
    }
    assert forall|o: Owner, m: u64| #[trigger]
        seq_amount(t, o, m) == if acct_key_is(a, o, m) {
            a.amount
        } else {
            seq_amount(s, o, m)
        } by {
        if acct_key_is(a, o, m) {
            lemma_acct_at(t, i, o, m);
        } else if seq_has(s, o, m) {
            let j = seq_idx(s, o, m);
            lemma_acct_at(s, j, o, m);
            assert(j != i);
            lemma_acct_at(t, j, o, m);
        }
    }
}

/// Appending an account with a fresh key adds that key with its balance and
/// changes nothing else.
pub proof fn lemma_accounts_push(s: Seq<TokenAccount>, a: TokenAccount)
    requires
        seq_unique(s),
        !seq_has(s, a.owner, a.mint),
    ensures
        seq_unique(s.push(a)),
        forall|o: Owner, m: u64| #[trigger]
            seq_has(s.push(a), o, m) <==> (seq_has(s, o, m) || acct_key_is(a, o, m)),
        forall|o: Owner, m: u64| #[trigger]
            seq_amount(s.push(a), o, m) == if acct_key_is(a, o, m) {
                a.amount
            } else {
                seq_amount(s, o, m)
            },
{
    let t = s.push(a);
    assert forall|i: int, j: int|
        #![trigger t[i], t[j]]
        0 <= i < t.len() && 0 <= j < t.len() && i != j implies !(t[i].owner == t[j].owner
        && t[i].mint == t[j].mint) by {
        if i < s.len() && j < s.len() {
            assert(t[i] == s[i] && t[j] == s[j]);
        } else if i < s.len() {
            assert(t[j] == a && t[i] == s[i]);
            if t[i].owner == a.owner && t[i].mint == a.mint {
                assert(acct_key_is(s[i], a.owner, a.mint));
                assert(seq_has(s, a.owner, a.mint));
            }
        } else {
            assert(t[i] == a && t[j] == s[j]);
            if t[j].owner == a.owner && t[j].mint == a.mint {
                assert(acct_key_is(s[j], a.owner, a.mint));
                assert(seq_has(s, a.owner, a.mint));
            }
        }
    }
    assert forall|o: Owner, m: u64| #[trigger]
        seq_has(t, o, m) <==> (seq_has(s, o, m) || acct_key_is(a, o, m)) by {
        if seq_has(s, o, m) {
            let j = seq_idx(s, o, m);
            assert(acct_key_is(t[j], o, m));
        }
        if acct_key_is(a, o, m) {
            assert(acct_key_is(t[s.len() as int], o, m));
        }
        if seq_has(t, o, m) {
            let j = choose|j: int| 0 <= j < t.len() && acct_key_is(#[trigger] t[j], o, m);
            if j < s.len() {
                assert(acct_key_is(s[j], o, m));
            } else {
                assert(acct_key_is(a, o, m));
            }
        }
    }
    assert forall|o: Owner, m: u64| #[trigger]
        seq_amount(t, o, m) == if acct_key_is(a, o, m) {
            a.amount
        } else {
            seq_amount(s, o, m)
        } by {
        if acct_key_is(a, o, m) {
            lemma_acct_at(t, s.len() as int, o, m);
        } else if seq_has(s, o, m) {
            let j = seq_idx(s, o, m);
            lemma_acct_at(s, j, o, m);
            lemma_acct_at(t, j, o, m);
        }
    }
}

/// Removing the account at position `i` by swapping the last account into
/// its place removes exactly the key held there and changes nothing else.
pub proof fn lemma_accounts_swap_remove(s: Seq<TokenAccount>, i: int, t: Seq<TokenAccount>)
    requires
        seq_unique(s),
        0 <= i < s.len(),
        t == s.update(i, s.last()).drop_last(),
    ensures
        seq_unique(t),
        forall|o: Owner, m: u64| #[trigger]
            seq_has(t, o, m) <==> (seq_has(s, o, m) && !acct_key_is(s[i], o, m)),
        forall|o: Owner, m: u64|
            !acct_key_is(s[i], o, m) ==> #[trigger] seq_amount(t, o, m) == seq_amount(s, o, m),
{
    let n = s.len() as int;
    assert(t.len() == n - 1);
    assert forall|p: int| 0 <= p < n - 1 implies t[p] == (if p == i {
        s[n - 1]
    } else {
        s[p]
    }) by {}
    assert forall|p: int, q: int|
        #![trigger t[p], t[q]]
        0 <= p < t.len() && 0 <= q < t.len() && p != q implies !(t[p].owner == t[q].owner
        && t[p].mint == t[q].mint) by {
        let sp: int = if p == i {
            n - 1
        } else {
            p
        };
        let sq: int = if q == i {
            n - 1
        } else {
            q
        };
        assert(t[p] == s[sp] && t[q] == s[sq]);
        assert(sp != sq);
    }
    assert forall|o: Owner, m: u64| #[trigger]
        seq_has(t, o, m) <==> (seq_has(s, o, m) && !acct_key_is(s[i], o, m)) by {
        if seq_has(t, o, m) {
            let j = choose|j: int| 0 <= j < t.len() && acct_key_is(#[trigger] t[j], o, m);
            let sj: int = if j == i {
                n - 1
            } else {
                j
            };
            assert(acct_key_is(s[sj], o, m));
            assert(sj != i || i == n - 1);
            if acct_key_is(s[i], o, m) {
                assert(sj != i ==> false);
                assert(false);
            }
        }
        if seq_has(s, o, m) && !acct_key_is(s[i], o, m) {
            let j = seq_idx(s, o, m);
            assert(acct_key_is(s[j], o, m));
            assert(j != i);
            if j == n - 1 {
                assert(i < n - 1);
                assert(acct_key_is(t[i], o, m));
            } else {
                assert(acct_key_is(t[j], o, m));
            }
        }
    }
    assert forall|o: Owner, m: u64|
        !acct_key_is(s[i], o, m) implies #[trigger] seq_amount(t, o, m) == seq_amount(
        s,
        o,
        m,
    ) by {
        if seq_has(s, o, m) {
            let j = seq_idx(s, o, m);
            lemma_acct_at(s, j, o, m);
            assert(j != i);
            if j == n - 1 {
                assert(acct_key_is(t[i], o, m));
                lemma_acct_at(t, i, o, m);
            } else {
                assert(acct_key_is(t[j], o, m));
                lemma_acct_at(t, j, o, m);
            }
        }
    }
}

/// Appending a record with a fresh `(maker, id)` pair adds that record and
/// changes nothing else.
pub proof fn lemma_offers_push(s: Seq<Offer>, rec: Offer)
    requires
        seq_offers_unique(s),
        !seq_has_offer(s, rec.maker, rec.id),
    ensures
        seq_offers_unique(s.push(rec)),
        forall|mk: u64, id: u64| #[trigger]
            seq_has_offer(s.push(rec), mk, id) <==> (seq_has_offer(s, mk, id) || offer_key_is(
                rec,
                mk,
                id,
            )),
        forall|mk: u64, id: u64|
            #![trigger seq_offer(s.push(rec), mk, id)]
            seq_has_offer(s.push(rec), mk, id) ==> seq_offer(s.push(rec), mk, id) == if offer_key_is(
                rec,
                mk,
                id,
            ) {
                rec
            } else {
                seq_offer(s, mk, id)
            },
{
    let t = s.push(rec);
    assert forall|i: int, j: int|
        #![trigger t[i], t[j]]
        0 <= i < t.len() && 0 <= j < t.len() && i != j implies !(t[i].maker == t[j].maker
        && t[i].id == t[j].id) by {
        if i < s.len() && j < s.len() {
            assert(t[i] == s[i] && t[j] == s[j]);
        } else if i < s.len() {
            assert(t[j] == rec && t[i] == s[i]);
            if t[i].maker == rec.maker && t[i].id == rec.id {
                assert(offer_key_is(s[i], rec.maker, rec.id));
                assert(seq_has_offer(s, rec.maker, rec.id));
            }
        } else {
            assert(t[i] == rec && t[j] == s[j]);
            if t[j].maker == rec.maker && t[j].id == rec.id {
                assert(offer_key_is(s[j], rec.maker, rec.id));
                assert(seq_has_offer(s, rec.maker, rec.id));
            }
        }
    }
    assert forall|mk: u64, id: u64| #[trigger]
        seq_has_offer(t, mk, id) <==> (seq_has_offer(s, mk, id) || offer_key_is(rec, mk, id)) by {
        if seq_has_offer(s, mk, id) {
            let j = seq_offer_idx(s, mk, id);
            assert(offer_key_is(t[j], mk, id));
        }
        if offer_key_is(rec, mk, id) {
            assert(offer_key_is(t[s.len() as int], mk, id));
        }
        if seq_has_offer(t, mk, id) {
            let j = choose|j: int| 0 <= j < t.len() && offer_key_is(#[trigger] t[j], mk, id);
            if j < s.len() {
                assert(offer_key_is(s[j], mk, id));
            } else {
                assert(offer_key_is(rec, mk, id));
            }
        }
    }
    assert forall|mk: u64, id: u64|
        #![trigger seq_offer(t, mk, id)]
        seq_has_offer(t, mk, id) implies seq_offer(t, mk, id) == (if offer_key_is(rec, mk, id) {
        rec
    } else {
        seq_offer(s, mk, id)
    }) by {
        if offer_key_is(rec, mk, id) {
            lemma_offer_at(t, s.len() as int, mk, id);
        } else {
            assert(seq_has_offer(t, mk, id));
            let j = choose|j: int| 0 <= j < t.len() && offer_key_is(#[trigger] t[j], mk, id);
            assert(j < s.len());
            lemma_offer_at(s, j, mk, id);
            lemma_offer_at(t, j, mk, id);
        }
    }
}

/// Removing the record at position `i` by swapping the last record into its
/// place removes exactly the `(maker, id)` pair held there and changes
/// nothing else.
pub proof fn lemma_offers_swap_remove(s: Seq<Offer>, i: int, t: Seq<Offer>)
    requires
        seq_offers_unique(s),
        0 <= i < s.len(),
        t == s.update(i, s.last()).drop_last(),
    ensures
        seq_offers_unique(t),
        forall|mk: u64, id: u64| #[trigger]
            seq_has_offer(t, mk, id) <==> (seq_has_offer(s, mk, id) && !offer_key_is(
                s[i],
                mk,
                id,
            )),
        forall|mk: u64, id: u64|
            #![trigger seq_offer(t, mk, id)]
            seq_has_offer(t, mk, id) ==> seq_offer(t, mk, id) == seq_offer(s, mk, id),
{
    let n = s.len() as int;
    assert(t.len() == n - 1);
    assert forall|p: int, q: int|
        #![trigger t[p], t[q]]
        0 <= p < t.len() && 0 <= q < t.len() && p != q implies !(t[p].maker == t[q].maker
        && t[p].id == t[q].id) by {
        let sp: int = if p == i {
            n - 1
        } else {
            p
        };
        let sq: int = if q == i {
            n - 1
        } else {
            q
        };
        assert(t[p] == s[sp] && t[q] == s[sq]);
        assert(sp != sq);
    }
    assert forall|mk: u64, id: u64| #[trigger]
        seq_has_offer(t, mk, id) <==> (seq_has_offer(s, mk, id) && !offer_key_is(
        s[i],
        mk,
        id,
    )) by {
        if seq_has_offer(t, mk, id) {
            let j = choose|j: int| 0 <= j < t.len() && offer_key_is(#[trigger] t[j], mk, id);
            let sj: int = if j == i {
                n - 1
            } else {
                j
            };
            assert(offer_key_is(s[sj], mk, id));
            if offer_key_is(s[i], mk, id) {
                assert(false);
            }
        }
        if seq_has_offer(s, mk, id) && !offer_key_is(s[i], mk, id) {
            let j = seq_offer_idx(s, mk, id);
            assert(offer_key_is(s[j], mk, id));
            assert(j != i);
            if j == n - 1 {
                assert(i < n - 1);
                assert(offer_key_is(t[i], mk, id));
            } else {
                assert(offer_key_is(t[j], mk, id));
            }
        }
    }
    assert forall|mk: u64, id: u64|
        #![trigger seq_offer(t, mk, id)]
        seq_has_offer(t, mk, id) implies seq_offer(t, mk, id) == seq_offer(s, mk, id) by {
        let j = choose|j: int| 0 <= j < t.len() && offer_key_is(#[trigger] t[j], mk, id);
        let sj: int = if j == i {
            n - 1
        } else {
            j
        };
        assert(offer_key_is(s[sj], mk, id));
        lemma_offer_at(s, sj, mk, id);
        lemma_offer_at(t, j, mk, id);
        assert(t[j] == s[sj]);
    }
}

} // verus!
