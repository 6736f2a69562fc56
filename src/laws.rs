//! Properties of sequences of ledger operations, stated over the step
//! relations that the operations' postconditions establish.
use vstd::prelude::*;
use crate::ledger::{minted, moved_to, priced, sold, withdraw_outcome, Contract};
use crate::token::{Balance, LedgerError, TokenId, TokenStatus, OTHER_FEE};

verus! {

/// The ids that `n` consecutive mints on a fresh ledger hand to `a`, when
/// the `i`-th mint goes to `owners[i]`.
pub open spec fn ids_minted_to(owners: Seq<Seq<char>>, a: Seq<char>, n: nat) -> Seq<TokenId>
    decreases n,
{
    if n == 0 {
        Seq::empty()
    } else {
        let before = ids_minted_to(owners, a, (n - 1) as nat);
        if owners[n - 1] == a {
            before.push(n as TokenId)
        } else {
            before
        }
    }
}

proof fn lemma_mints_prefix(
    states: Seq<Contract>,
    owners: Seq<Seq<char>>,
    metadata: Seq<Seq<char>>,
    ids: Seq<TokenId>,
    n: nat,
)
    requires
        n <= ids.len(),
        states.len() == ids.len() + 1,
        owners.len() == ids.len(),
        metadata.len() == ids.len(),
        states[0].last_id() == 0,
        forall|a: Seq<char>| #[trigger] states[0].listing_of(a) == Seq::<TokenId>::empty(),
        forall|i: int| 0 <= i < ids.len() ==> minted(states[i], states[i + 1], owners[i], metadata[i], #[trigger] ids[i]),
    ensures
        states[n as int].last_id() == n,
        forall|i: int| 0 <= i < n ==> #[trigger] ids[i] == i + 1,
        forall|a: Seq<char>| #[trigger] states[n as int].listing_of(a) == ids_minted_to(owners, a, n),
    decreases n,
{
    if n > 0 {
        let m = (n - 1) as nat;
        lemma_mints_prefix(states, owners, metadata, ids, m);
        assert(minted(states[m as int], states[n as int], owners[m as int], metadata[m as int], ids[m as int]));
        assert forall|a: Seq<char>| #[trigger] states[n as int].listing_of(a) == ids_minted_to(owners, a, n) by {
            assert(states[m as int].listing_of(a) == ids_minted_to(owners, a, m));
        }
    }
}

/// Minting on a fresh ledger hands out ids `1, 2, 3, ...` in call order,
/// and each account's listing is then the ids minted to it, in that order.
pub proof fn lemma_mint_sequence(
    states: Seq<Contract>,
    owners: Seq<Seq<char>>,
    metadata: Seq<Seq<char>>,
    ids: Seq<TokenId>,
)
    requires
        states.len() == ids.len() + 1,
        owners.len() == ids.len(),
        metadata.len() == ids.len(),
        states[0].last_id() == 0,
        forall|a: Seq<char>| #[trigger] states[0].listing_of(a) == Seq::<TokenId>::empty(),
        forall|i: int| 0 <= i < ids.len() ==> minted(states[i], states[i + 1], owners[i], metadata[i], #[trigger] ids[i]),
    ensures
        forall|i: int| 0 <= i < ids.len() ==> #[trigger] ids[i] == i + 1,
        forall|i: int|
            0 <= i < ids.len() ==> #[trigger] states[i + 1].listing_of(owners[i]) == states[i].listing_of(owners[i]).push(ids[i]),
        forall|a: Seq<char>| #[trigger] states[ids.len() as int].listing_of(a) == ids_minted_to(owners, a, ids.len()),
{
    lemma_mints_prefix(states, owners, metadata, ids, ids.len());
    assert forall|i: int| 0 <= i < ids.len() implies #[trigger] states[i + 1].listing_of(owners[i])
        == states[i].listing_of(owners[i]).push(ids[i]) by {
        assert(minted(states[i], states[i + 1], owners[i], metadata[i], ids[i]));
    }
}

proof fn lemma_push_then_remove(s: Seq<TokenId>, t: TokenId)
    requires
        !s.contains(t),
    ensures
        s.push(t).remove_value(t) == s,
{
    let r = s.push(t);
    r.index_of_first_ensures(t);
    assert(r[s.len() as int] == t);
    let i = r.index_of_first(t)->0;
    if i < s.len() {
        assert(s[i] == t);
    }
    assert(r.remove(s.len() as int) =~= s);
}

/// Moving a token from `a` to `b` and back leaves `b`'s listing as it
/// was, puts the token back in `a`'s listing (at its end), restores the
/// token's record and changes no balance.
pub proof fn lemma_transfer_round_trip(
    c0: Contract,
    c1: Contract,
    c2: Contract,
    t: TokenId,
    a: Seq<char>,
    b: Seq<char>,
)
    requires
        c0.wf(),
        c0.has_token(t as int),
        c0.token(t as int).owner_id == a,
        a != b,
        moved_to(c0, c1, t, b),
        moved_to(c1, c2, t, a),
    ensures
        c2.listing_of(b) == c0.listing_of(b),
        !c2.listing_of(b).contains(t),
        c2.listing_of(a) == c0.listing_of(a).remove_value(t).push(t),
        c2.listing_of(a).contains(t),
        c2.token(t as int) == c0.token(t as int),
        forall|x: Seq<char>| #[trigger] c2.balance_of(x) == c0.balance_of(x),
{
    c0.lemma_listing_partition();
    if c0.listing_of(b).contains(t) {
        let i = choose|i: int| 0 <= i < c0.listing_of(b).len() && c0.listing_of(b)[i] == t;
        assert(c0.token(c0.listing_of(b)[i] as int).owner_id == b);
    }
    assert(c1.listing_of(b) == c0.listing_of(b).push(t));
    lemma_push_then_remove(c0.listing_of(b), t);
    assert(c2.listing_of(b) == c1.listing_of(b).remove_value(t));
    assert(c2.listing_of(a) == c1.listing_of(a).push(t));
    assert(c2.listing_of(a)[c2.listing_of(a).len() - 1] == t);
    assert forall|x: Seq<char>| #[trigger] c2.balance_of(x) == c0.balance_of(x) by {
        assert(c1.balance_of(x) == c0.balance_of(x));
    }
}

/// Minting a token for `a`, offering it at `price` and selling it to `b`
/// credits exactly `price` to `a`, takes the token off sale and makes `b`
/// its owner, listed under `b` and no longer under `a`.
pub proof fn lemma_sale_accounting(
    c0: Contract,
    c1: Contract,
    c2: Contract,
    c3: Contract,
    a: Seq<char>,
    metadata: Seq<char>,
    t: TokenId,
    price: Balance,
    b: Seq<char>,
)
    requires
        a != b,
        minted(c0, c1, a, metadata, t),
        priced(c1, c2, t, price),
        sold(c2, c3, t, b),
    ensures
        c3.balance_of(a) == c0.balance_of(a) + price,
        c3.token(t as int).status == TokenStatus::NotForSale,
        c3.token(t as int).owner_id == b,
        c3.listing_of(b).contains(t),
        !c3.listing_of(a).contains(t),
{
    assert(c2.token(t as int).owner_id == a);
    assert(c2.balance_of(a) == c1.balance_of(a));
    c3.lemma_listing_partition();
    assert(c3.has_token(t as int));
    assert(c3.listing_of(c3.token(t as int).owner_id).contains(t));
    if c3.listing_of(a).contains(t) {
        let i = choose|i: int| 0 <= i < c3.listing_of(a).len() && c3.listing_of(a)[i] == t;
        assert(c3.token(c3.listing_of(a)[i] as int).owner_id == a);
    }
}

proof fn lemma_balance_kept(states: Seq<Contract>, caller: Seq<char>, n: int)
    requires
        0 <= n < states.len(),
        forall|i: int| 0 <= i < states.len() - 1 ==> #[trigger] states[i + 1].balance_of(caller) == states[i].balance_of(caller),
    ensures
        states[n].balance_of(caller) == states[0].balance_of(caller),
    decreases n,
{
    if n > 0 {
        lemma_balance_kept(states, caller, n - 1);
        assert(states[(n - 1) + 1].balance_of(caller) == states[n - 1].balance_of(caller));
    }
}

/// After a withdrawal succeeds the account's balance is 0. Any run of
/// operations that credits the account nothing keeps it 0 (mints, price
/// changes, transfers and other accounts' sales and withdrawals all do, by
/// their contracts), and a withdrawal with the right fee after such a run
/// is refused with `NothingToWithdraw` and changes nothing.
pub proof fn lemma_withdraw_twice(
    c0: Contract,
    states: Seq<Contract>,
    c2: Contract,
    caller: Seq<char>,
    first: Result<Balance, LedgerError>,
    second: Result<Balance, LedgerError>,
)
    requires
        states.len() >= 1,
        withdraw_outcome(c0, states[0], caller, OTHER_FEE, first),
        first is Ok,
        forall|i: int| 0 <= i < states.len() - 1 ==> #[trigger] states[i + 1].balance_of(caller) == states[i].balance_of(caller),
        withdraw_outcome(states[states.len() - 1], c2, caller, OTHER_FEE, second),
    ensures
        states[0].balance_of(caller) == 0,
        states[states.len() - 1].balance_of(caller) == 0,
        second == Err::<Balance, LedgerError>(LedgerError::NothingToWithdraw),
        c2 == states[states.len() - 1],
{
    lemma_balance_kept(states, caller, states.len() - 1);
}

} // verus!
